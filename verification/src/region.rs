use crate::scannable::Scannable;
use vstd::prelude::*;

verus! {

// ---------------------------------------------------------------------------
// Spec toolkit: strides, masks and sorted address sequences
// ---------------------------------------------------------------------------

/// The addresses are in strictly ascending order.
pub open spec fn sorted_strict(s: Seq<usize>) -> bool {
    forall|i: int, j: int| 0 <= i < j < s.len() ==> s[i] < s[j]
}

/// All addresses leave the same remainder modulo `size`.
pub open spec fn mutually_aligned(s: Seq<usize>, size: int) -> bool {
    forall|i: int, j: int|
        0 <= i < s.len() && 0 <= j < s.len() ==> (s[i] as int) % size == (s[j] as int) % size
}

/// Number of stride slots of width `size` inside the half-open span `[start, end)`.
pub open spec fn slot_count(start: int, end: int, size: int) -> int {
    if end <= start {
        0
    } else {
        (end - start - 1) / size + 1
    }
}

/// Number of `true` entries in a mask.
pub open spec fn count_true(m: Seq<bool>) -> int
    decreases m.len(),
{
    if m.len() == 0 {
        0
    } else {
        count_true(m.drop_last()) + if m.last() {
            1int
        } else {
            0int
        }
    }
}

/// Addresses selected by a mask: slot `j` contributes `base + j * size` when `m[j]`.
pub open spec fn masked_addrs(base: int, size: int, m: Seq<bool>) -> Seq<usize>
    decreases m.len(),
{
    if m.len() == 0 {
        Seq::empty()
    } else {
        let prefix = masked_addrs(base, size, m.drop_last());
        if m.last() {
            prefix.push((base + (m.len() - 1) * size) as usize)
        } else {
            prefix
        }
    }
}

/// The first `n` stride addresses from `start`, skipping those in `excluded`.
pub open spec fn kept_stride_addrs(start: int, size: int, n: int, excluded: Seq<usize>) -> Seq<
    usize,
>
    decreases n,
{
    if n <= 0 {
        Seq::empty()
    } else {
        let prefix = kept_stride_addrs(start, size, n - 1, excluded);
        let a = (start + (n - 1) * size) as usize;
        if excluded.contains(a) {
            prefix
        } else {
            prefix.push(a)
        }
    }
}

// ---------------------------------------------------------------------------
// Facts about strides, masks and sorted address sequences
// ---------------------------------------------------------------------------

/// Two distinct addresses with the same remainder modulo `size` lie at least
/// one stride apart.
pub proof fn lemma_aligned_gap(a: int, b: int, size: int)
    requires
        1 <= size,
        0 <= a < b,
        a % size == b % size,
    ensures
        a + size <= b,
{
    vstd::arithmetic::div_mod::lemma_fundamental_div_mod(a, size);
    vstd::arithmetic::div_mod::lemma_fundamental_div_mod(b, size);
    let qa = a / size;
    let qb = b / size;
    assert(b - a == size * (qb - qa)) by (nonlinear_arith)
        requires
            a == size * qa + a % size,
            b == size * qb + b % size,
            a % size == b % size,
    ;
    assert(qb - qa >= 1) by (nonlinear_arith)
        requires
            size >= 1,
            size * (qb - qa) > 0,
    ;
    assert(size * (qb - qa) >= size) by (nonlinear_arith)
        requires
            size >= 1,
            qb - qa >= 1,
    ;
}

/// In a strictly ascending, mutually aligned address sequence, the element at
/// position `i` lies at least `i` strides above the first and at least
/// `len - 1 - i` strides below the last.
pub proof fn lemma_sorted_aligned_spread(s: Seq<usize>, size: int, i: int)
    requires
        1 <= size,
        sorted_strict(s),
        mutually_aligned(s, size),
        0 <= i < s.len(),
    ensures
        s[0] + i * size <= s[i],
        s[i] + (s.len() - 1 - i) * size <= s.last(),
{
    lemma_spread_lower(s, size, i);
    lemma_spread_upper(s, size, i);
}

proof fn lemma_spread_lower(s: Seq<usize>, size: int, i: int)
    requires
        1 <= size,
        sorted_strict(s),
        mutually_aligned(s, size),
        0 <= i < s.len(),
    ensures
        s[0] + i * size <= s[i],
    decreases i,
{
    if i == 0 {
        assert(i * size == 0) by (nonlinear_arith)
            requires
                i == 0,
        ;
    } else {
        lemma_spread_lower(s, size, i - 1);
        lemma_aligned_gap(s[i - 1] as int, s[i] as int, size);
        assert((i - 1) * size + size == i * size) by (nonlinear_arith);
    }
}

proof fn lemma_spread_upper(s: Seq<usize>, size: int, i: int)
    requires
        1 <= size,
        sorted_strict(s),
        mutually_aligned(s, size),
        0 <= i < s.len(),
    ensures
        s[i] + (s.len() - 1 - i) * size <= s.last(),
    decreases s.len() - i,
{
    let n = s.len() as int;
    if i == n - 1 {
        assert((n - 1 - i) * size == 0) by (nonlinear_arith)
            requires
                i == n - 1,
        ;
    } else {
        lemma_spread_upper(s, size, i + 1);
        lemma_aligned_gap(s[i] as int, s[i + 1] as int, size);
        assert((n - 1 - i - 1) * size + size == (n - 1 - i) * size) by (nonlinear_arith);
    }
}

/// A strictly ascending sequence that occupies every stride slot between its
/// first and last element is exactly the stride.
pub proof fn lemma_dense(s: Seq<usize>, size: int)
    requires
        1 <= size,
        sorted_strict(s),
        mutually_aligned(s, size),
        s.len() >= 1,
        s.len() == (s.last() - s[0]) / size + 1,
    ensures
        forall|i: int| 0 <= i < s.len() ==> s[i] == s[0] + #[trigger] (i * size),
{
    let n = s.len() as int;
    let span = s.last() - s[0];
    assert(span % size == 0) by {
        lemma_aligned_diff(s[0] as int, s.last() as int, size);
    }
    assert(size * (span / size) + span % size == span) by {
        vstd::arithmetic::div_mod::lemma_fundamental_div_mod(span, size);
    }
    assert((n - 1) * size == span) by (nonlinear_arith)
        requires
            n - 1 == span / size,
            size * (span / size) == span,
    ;
    assert forall|i: int| 0 <= i < n implies s[i] == s[0] + #[trigger] (i * size) by {
        lemma_spread_lower(s, size, i);
        lemma_spread_upper(s, size, i);
        assert(i * size + (n - 1 - i) * size == (n - 1) * size) by (nonlinear_arith);
    }
}

/// The difference of two mutually aligned addresses is a multiple of `size`.
pub proof fn lemma_aligned_diff(a: int, b: int, size: int)
    requires
        1 <= size,
        0 <= a <= b,
        a % size == b % size,
    ensures
        (b - a) % size == 0,
        b - a == size * ((b - a) / size),
{
    vstd::arithmetic::div_mod::lemma_fundamental_div_mod(a, size);
    vstd::arithmetic::div_mod::lemma_fundamental_div_mod(b, size);
    let qa = a / size;
    let qb = b / size;
    assert(b - a == size * (qb - qa)) by (nonlinear_arith)
        requires
            a == size * qa + a % size,
            b == size * qb + b % size,
            a % size == b % size,
    ;
    vstd::arithmetic::div_mod::lemma_mod_multiples_basic(qb - qa, size);
    assert(size * (qb - qa) == (qb - qa) * size) by (nonlinear_arith);
    vstd::arithmetic::div_mod::lemma_fundamental_div_mod_converse(b - a, size, qb - qa, 0);
}

/// Two strictly ascending sequences with the same members are equal.
pub proof fn lemma_sorted_unique(s1: Seq<usize>, s2: Seq<usize>)
    requires
        sorted_strict(s1),
        sorted_strict(s2),
        forall|a: usize| s1.contains(a) <==> s2.contains(a),
    ensures
        s1 == s2,
    decreases s1.len(),
{
    if s1.len() == 0 {
        if s2.len() > 0 {
            assert(s2.contains(s2[0]));
            assert(false);
        }
        assert(s1 =~= s2);
    } else {
        assert(s1.contains(s1.last()));
        assert(s2.len() > 0);
        // The last element of a strictly ascending sequence is its maximum.
        assert(s2.contains(s1.last()));
        let i2 = choose|i: int| 0 <= i < s2.len() && s2[i] == s1.last();
        assert(s1.last() <= s2.last());
        assert(s1.contains(s2.last()));
        let i1 = choose|i: int| 0 <= i < s1.len() && s1[i] == s2.last();
        assert(s2.last() <= s1.last());
        let m = s1.last();
        // Dropping the maximum from both sides preserves the membership match.
        assert forall|a: usize| s1.drop_last().contains(a) <==> s2.drop_last().contains(a) by {
            lemma_drop_last_contains(s1, a);
            lemma_drop_last_contains(s2, a);
        }
        lemma_sorted_unique(s1.drop_last(), s2.drop_last());
        assert(s1 =~= s2) by {
            assert(s1.drop_last() =~= s2.drop_last());
            assert(s1.len() == s2.len());
            assert(forall|i: int|
                0 <= i < s1.len() - 1 ==> s1[i] == s1.drop_last()[i] && s2[i] == s2.drop_last()[i]);
        }
    }
}

/// Membership in a strictly ascending sequence without its last element.
proof fn lemma_drop_last_contains(s: Seq<usize>, a: usize)
    requires
        sorted_strict(s),
        s.len() >= 1,
    ensures
        s.drop_last().contains(a) <==> (s.contains(a) && a != s.last()),
{
    if s.drop_last().contains(a) {
        let i = choose|i: int| 0 <= i < s.len() - 1 && s.drop_last()[i] == a;
        assert(s[i] == a);
        assert(s.contains(a));
        assert(a < s.last());
    }
    if s.contains(a) && a != s.last() {
        let i = choose|i: int| 0 <= i < s.len() && s[i] == a;
        assert(i < s.len() - 1);
        assert(s.drop_last()[i] == a);
        assert(s.drop_last().contains(a));
    }
}

/// A slot below `slot_count(start, end, size)` starts inside `[start, end)`.
pub proof fn lemma_slot_in_span(start: int, end: int, size: int, i: int)
    requires
        1 <= size,
        0 <= start <= end,
        0 <= i < slot_count(start, end, size),
    ensures
        start <= start + i * size < end,
{
    let sc = slot_count(start, end, size);
    let w = end - start - 1;
    assert(sc == w / size + 1);
    vstd::arithmetic::div_mod::lemma_fundamental_div_mod(w, size);
    vstd::arithmetic::div_mod::lemma_mod_bound(w, size);
    assert(i * size <= (w / size) * size) by (nonlinear_arith)
        requires
            i <= w / size,
            size >= 1,
    ;
    assert((w / size) * size <= w) by (nonlinear_arith)
        requires
            size * (w / size) + w % size == w,
            w % size >= 0,
    ;
    assert(i * size >= 0) by (nonlinear_arith)
        requires
            i >= 0,
            size >= 1,
    ;
}

/// The slots of a span whose last byte fits in memory all fit in memory.
pub proof fn lemma_span_slots_fit(start: int, end: int, size: int)
    requires
        1 <= size,
        0 <= start <= end <= usize::MAX,
        start < end ==> start + (slot_count(start, end, size) - 1) * size + size <= usize::MAX,
    ensures
        start + slot_count(start, end, size) * size <= usize::MAX + 1,
{
    let sc = slot_count(start, end, size);
    if sc > 0 {
        lemma_slot_in_span(start, end, size, sc - 1);
        assert(sc * size == (sc - 1) * size + size) by (nonlinear_arith);
    } else {
        assert(sc * size == 0) by (nonlinear_arith)
            requires
                sc == 0,
        ;
    }
}

/// The slots of a mask whose last slot fits in memory all fit in memory.
pub proof fn lemma_mask_slots_fit(base: int, size: int, n: int)
    requires
        1 <= size,
        0 <= base <= usize::MAX,
        n >= 0,
        n > 0 ==> base + (n - 1) * size + size <= usize::MAX,
    ensures
        base + n * size <= usize::MAX + 1,
{
    if n > 0 {
        assert(n * size == (n - 1) * size + size) by (nonlinear_arith);
    } else {
        assert(n * size == 0) by (nonlinear_arith)
            requires
                n == 0,
        ;
    }
}

/// Shape of the masked address sequence: one ascending address per set bit,
/// each `base + j * size` for the slot `j` of its bit.
pub proof fn lemma_masked_addrs_props(base: int, size: int, m: Seq<bool>)
    requires
        1 <= size,
        0 <= base,
        base + m.len() * size <= usize::MAX + 1,
    ensures
        masked_addrs(base, size, m).len() == count_true(m),
        sorted_strict(masked_addrs(base, size, m)),
        forall|a: usize| #[trigger]
            masked_addrs(base, size, m).contains(a) <==> exists|j: int|
                0 <= j < m.len() && #[trigger] m[j] && a == base + j * size,
    decreases m.len(),
{
    let s = masked_addrs(base, size, m);
    if m.len() == 0 {
        assert forall|a: usize| !s.contains(a) by {}
    } else {
        let n = m.len() as int;
        assert((n - 1) * size + size == n * size) by (nonlinear_arith);
        lemma_masked_addrs_props(base, size, m.drop_last());
        let prefix = masked_addrs(base, size, m.drop_last());
        let aa = (base + (n - 1) * size) as usize;
        assert(base + (n - 1) * size <= usize::MAX);
        assert(aa == base + (n - 1) * size);
        // Every prefix element lies strictly below the new address.
        assert forall|p: int| 0 <= p < prefix.len() implies (prefix[p] as int) < base + (n - 1)
            * size by {
            assert(prefix.contains(prefix[p]));
            let j = choose|j: int| 0 <= j < n - 1 && m.drop_last()[j] && prefix[p] == base + j
                * size;
            assert(j * size < (n - 1) * size) by (nonlinear_arith)
                requires
                    0 <= j < n - 1,
                    size >= 1,
            ;
        }
        if m.last() {
            assert(s == prefix.push(aa));
            assert forall|a: usize| #[trigger] s.contains(a) implies exists|j: int|
                0 <= j < n && m[j] && a == base + j * size by {
                if a == aa {
                    assert(m[n - 1] && a == base + (n - 1) * size);
                } else {
                    assert(prefix.contains(a));
                    let j = choose|j: int|
                        0 <= j < n - 1 && m.drop_last()[j] && a == base + j * size;
                    assert(m[j]);
                }
            }
            assert forall|a: usize|
                (exists|j: int| 0 <= j < n && m[j] && a == base + j * size) implies #[trigger] s
                .contains(a) by {
                let j = choose|j: int| 0 <= j < n && m[j] && a == base + j * size;
                if j == n - 1 {
                    assert(s.last() == a);
                    assert(s.contains(a));
                } else {
                    assert(m.drop_last()[j]);
                    assert(prefix.contains(a));
                    let p = choose|p: int| 0 <= p < prefix.len() && prefix[p] == a;
                    assert(s[p] == a);
                    assert(s.contains(a));
                }
            }
        } else {
            assert(s == prefix);
            assert forall|a: usize| #[trigger] s.contains(a) implies exists|j: int|
                0 <= j < n && m[j] && a == base + j * size by {
                let j = choose|j: int| 0 <= j < n - 1 && m.drop_last()[j] && a == base + j * size;
                assert(m[j]);
            }
            assert forall|a: usize|
                (exists|j: int| 0 <= j < n && m[j] && a == base + j * size) implies #[trigger] s
                .contains(a) by {
                let j = choose|j: int| 0 <= j < n && m[j] && a == base + j * size;
                assert(j != n - 1);
                assert(m.drop_last()[j]);
            }
        }
    }
}

/// Shape of the kept stride addresses: ascending, and a stride address is kept
/// exactly when it is not excluded.
pub proof fn lemma_kept_stride_props(start: int, size: int, n: int, excluded: Seq<usize>)
    requires
        1 <= size,
        0 <= start,
        n >= 0,
        start + n * size <= usize::MAX + 1,
    ensures
        sorted_strict(kept_stride_addrs(start, size, n, excluded)),
        forall|a: usize| #[trigger]
            kept_stride_addrs(start, size, n, excluded).contains(a) <==> exists|j: int|
                0 <= j < n && a == start + #[trigger] (j * size) && !excluded.contains(a),
    decreases n,
{
    let s = kept_stride_addrs(start, size, n, excluded);
    if n == 0 {
        assert forall|a: usize| !s.contains(a) by {}
    } else {
        assert((n - 1) * size + size == n * size) by (nonlinear_arith);
        lemma_kept_stride_props(start, size, n - 1, excluded);
        let prefix = kept_stride_addrs(start, size, n - 1, excluded);
        let aa = (start + (n - 1) * size) as usize;
        assert(start + (n - 1) * size <= usize::MAX);
        assert(aa == start + (n - 1) * size);
        assert forall|p: int| 0 <= p < prefix.len() implies (prefix[p] as int) < start + (n - 1)
            * size by {
            assert(prefix.contains(prefix[p]));
            let j = choose|j: int|
                0 <= j < n - 1 && prefix[p] == start + #[trigger] (j * size) && !excluded.contains(
                    prefix[p],
                );
            assert(j * size < (n - 1) * size) by (nonlinear_arith)
                requires
                    0 <= j < n - 1,
                    size >= 1,
            ;
        }
        if excluded.contains(aa) {
            assert(s == prefix);
            assert forall|a: usize|
                (exists|j: int|
                    0 <= j < n && a == start + #[trigger] (j * size) && !excluded.contains(a))
                    implies #[trigger] s.contains(a) by {
                let j = choose|j: int|
                    0 <= j < n && a == start + #[trigger] (j * size) && !excluded.contains(a);
                assert(j != n - 1);
            }
        } else {
            assert(s == prefix.push(aa));
            assert forall|a: usize| #[trigger] s.contains(a) implies exists|j: int|
                0 <= j < n && a == start + #[trigger] (j * size) && !excluded.contains(a) by {
                if a == aa {
                    assert(a == start + (n - 1) * size && !excluded.contains(a));
                } else {
                    assert(prefix.contains(a));
                }
            }
            assert forall|a: usize|
                (exists|j: int|
                    0 <= j < n && a == start + #[trigger] (j * size) && !excluded.contains(a))
                    implies #[trigger] s.contains(a) by {
                let j = choose|j: int|
                    0 <= j < n && a == start + #[trigger] (j * size) && !excluded.contains(a);
                if j == n - 1 {
                    assert(s.last() == a);
                    assert(s.contains(a));
                } else {
                    assert(prefix.contains(a));
                    let p = choose|p: int| 0 <= p < prefix.len() && prefix[p] == a;
                    assert(s[p] == a);
                    assert(s.contains(a));
                }
            }
        }
    }
}

/// The kept stride addresses over fewer slots are a prefix of those over more.
pub proof fn lemma_kept_stride_prefix(start: int, size: int, k: int, n: int, excluded: Seq<usize>)
    requires
        0 <= k <= n,
    ensures
        kept_stride_addrs(start, size, k, excluded).is_prefix_of(
            kept_stride_addrs(start, size, n, excluded),
        ),
    decreases n - k,
{
    if k < n {
        lemma_kept_stride_prefix(start, size, k, n - 1, excluded);
        let a = kept_stride_addrs(start, size, k, excluded);
        let b = kept_stride_addrs(start, size, n - 1, excluded);
        let c = kept_stride_addrs(start, size, n, excluded);
        assert(a == b.take(a.len() as int));
        assert(b.is_prefix_of(c));
        assert(a =~= c.take(a.len() as int));
    }
}

/// The masked addresses of a mask prefix are a prefix of the masked addresses.
pub proof fn lemma_masked_addrs_prefix(base: int, size: int, m: Seq<bool>, k: int)
    requires
        0 <= k <= m.len(),
    ensures
        masked_addrs(base, size, m.take(k)).is_prefix_of(masked_addrs(base, size, m)),
    decreases m.len() - k,
{
    if k == m.len() {
        assert(m.take(k) =~= m);
    } else {
        lemma_masked_addrs_prefix(base, size, m, k + 1);
        let a = masked_addrs(base, size, m.take(k));
        let b = masked_addrs(base, size, m.take(k + 1));
        let c = masked_addrs(base, size, m);
        assert(m.take(k + 1).drop_last() =~= m.take(k));
        assert(a == if m[k] {
            b.drop_last()
        } else {
            b
        });
        assert(a.is_prefix_of(b));
        assert(a =~= c.take(a.len() as int));
    }
}

/// Whether the discrete entries hold an entry for address `a`.
pub open spec fn has_key<V: Scannable>(entries: Seq<(usize, V)>, a: int) -> bool {
    exists|i: int| 0 <= i < entries.len() && (#[trigger] entries[i]).0 == a
}

/// The first `n` stride addresses from `start` that have no entry.
pub open spec fn missing_stride_addrs<V: Scannable>(
    start: int,
    size: int,
    n: int,
    entries: Seq<(usize, V)>,
) -> Seq<usize>
    decreases n,
{
    if n <= 0 {
        Seq::empty()
    } else {
        let prefix = missing_stride_addrs(start, size, n - 1, entries);
        let a = (start + (n - 1) * size) as usize;
        if has_key(entries, a as int) {
            prefix
        } else {
            prefix.push(a)
        }
    }
}

/// Shape of the missing stride addresses: ascending, and a stride address is
/// missing exactly when no entry holds it.
pub proof fn lemma_missing_stride_props<V: Scannable>(
    start: int,
    size: int,
    n: int,
    entries: Seq<(usize, V)>,
)
    requires
        1 <= size,
        0 <= start,
        n >= 0,
        start + n * size <= usize::MAX + 1,
    ensures
        sorted_strict(missing_stride_addrs(start, size, n, entries)),
        forall|a: usize| #[trigger]
            missing_stride_addrs(start, size, n, entries).contains(a) <==> exists|j: int|
                0 <= j < n && a == start + #[trigger] (j * size) && !has_key(entries, a as int),
    decreases n,
{
    let s = missing_stride_addrs(start, size, n, entries);
    if n == 0 {
        assert forall|a: usize| !s.contains(a) by {}
    } else {
        assert((n - 1) * size + size == n * size) by (nonlinear_arith);
        lemma_missing_stride_props(start, size, n - 1, entries);
        let prefix = missing_stride_addrs(start, size, n - 1, entries);
        let aa = (start + (n - 1) * size) as usize;
        assert(start + (n - 1) * size <= usize::MAX);
        assert(aa == start + (n - 1) * size);
        assert forall|p: int| 0 <= p < prefix.len() implies (prefix[p] as int) < start + (n - 1)
            * size by {
            assert(prefix.contains(prefix[p]));
            let j = choose|j: int|
                0 <= j < n - 1 && prefix[p] == start + #[trigger] (j * size) && !has_key(
                    entries,
                    prefix[p] as int,
                );
            assert(j * size < (n - 1) * size) by (nonlinear_arith)
                requires
                    0 <= j < n - 1,
                    size >= 1,
            ;
        }
        if has_key(entries, aa as int) {
            assert(s == prefix);
            assert forall|a: usize|
                (exists|j: int|
                    0 <= j < n && a == start + #[trigger] (j * size) && !has_key(
                        entries,
                        a as int,
                    )) implies #[trigger] s.contains(a) by {
                let j = choose|j: int|
                    0 <= j < n && a == start + #[trigger] (j * size) && !has_key(entries, a as int);
                assert(j != n - 1);
            }
        } else {
            assert(s == prefix.push(aa));
            assert forall|a: usize| #[trigger] s.contains(a) implies exists|j: int|
                0 <= j < n && a == start + #[trigger] (j * size) && !has_key(entries, a as int) by {
                if a == aa {
                    assert(a == start + (n - 1) * size && !has_key(entries, a as int));
                } else {
                    assert(prefix.contains(a));
                }
            }
            assert forall|a: usize|
                (exists|j: int|
                    0 <= j < n && a == start + #[trigger] (j * size) && !has_key(
                        entries,
                        a as int,
                    )) implies #[trigger] s.contains(a) by {
                let j = choose|j: int|
                    0 <= j < n && a == start + #[trigger] (j * size) && !has_key(entries, a as int);
                if j == n - 1 {
                    assert(s.last() == a);
                    assert(s.contains(a));
                } else {
                    assert(prefix.contains(a));
                    let p = choose|p: int| 0 <= p < prefix.len() && prefix[p] == a;
                    assert(s[p] == a);
                    assert(s.contains(a));
                }
            }
        }
    }
}

/// Every member of a sorted, mutually aligned address sequence sits on a
/// stride slot between the first and the last member.
pub proof fn lemma_member_is_slot(s: Seq<usize>, size: int, i: int)
    requires
        1 <= size,
        sorted_strict(s),
        mutually_aligned(s, size),
        s.len() >= 1,
        0 <= i < s.len(),
    ensures
        exists|j: int|
            0 <= j < slot_count(s[0] as int, s.last() + 1, size) && s[i] == s[0] + #[trigger] (j
                * size),
{
    if i > 0 {
        assert(s[0] < s[i]);
    }
    lemma_aligned_diff(s[0] as int, s[i] as int, size);
    let j = (s[i] - s[0]) / size;
    assert(s[i] - s[0] == size * j);
    assert(j * size == size * j) by (nonlinear_arith);
    assert(j >= 0) by (nonlinear_arith)
        requires
            size >= 1,
            size * j >= 0,
    ;
    if i < s.len() - 1 {
        assert(s[i] < s.last());
    }
    lemma_aligned_diff(s[0] as int, s.last() as int, size);
    let jl = (s.last() - s[0]) / size;
    vstd::arithmetic::div_mod::lemma_div_is_ordered(
        s[i] - s[0],
        s.last() - s[0],
        size,
    );
    assert(slot_count(s[0] as int, s.last() + 1, size) == jl + 1);
    assert(s[i] == s[0] + j * size);
}

// ---------------------------------------------------------------------------
// The candidate location store
// ---------------------------------------------------------------------------

/// Representation of a single surviving location in memory.
#[derive(Clone, Copy, Debug, PartialEq)]
pub struct Location<V: Scannable> {
    /// Address of the location, in the scanned program's address space.
    pub address: usize,
    /// Value recorded at the location by the scan that produced it.
    pub value: V,
}

/// Locations style for holding the surviving `(address, value)` set.
///
/// Every encoding denotes the same kind of thing: a strictly ascending
/// sequence of addresses (`addrs`) with one recorded value per address
/// (`vals`). `try_compact` rewrites a `KeyValue` store into the cheapest
/// encoding that the compaction policy admits, without changing that
/// denotation.
#[derive(Debug, PartialEq)]
pub enum LocationsStyle<V: Scannable> {
    /// Discrete (address, value) entries, ascending by address.
    KeyValue(Vec<(usize, V)>),
    /// Ascending addresses that all hold one shared value.
    SameValue { locations: Vec<usize>, value: V },
    /// A fully occupied stride of locations in `[start, end)`.
    Range { start: usize, end: usize, values: Vec<V> },
    /// A stride of locations in `[start, end)` with a few addresses excluded.
    ExcludedRange { start: usize, end: usize, excluded: Vec<usize>, values: Vec<V> },
    /// A base address plus ascending 16-bit offsets.
    Offsetted { base: usize, offsets: Vec<(u16, V)> },
    /// A base address plus one mask bit per stride slot.
    Masked { base: usize, mask: Vec<bool>, values: Vec<V> },
}

impl<V: Scannable> LocationsStyle<V> {
    /// The ascending sequence of surviving addresses this store denotes.
    pub open spec fn addrs(self) -> Seq<usize> {
        let size = V::byte_size() as int;
        match self {
            LocationsStyle::KeyValue(entries) => entries@.map_values(|p: (usize, V)| p.0),
            LocationsStyle::SameValue { locations, .. } => locations@,
            LocationsStyle::Range { start, end, .. } => Seq::new(
                slot_count(start as int, end as int, size) as nat,
                |i: int| (start + i * size) as usize,
            ),
            LocationsStyle::ExcludedRange { start, end, excluded, values } => kept_stride_addrs(
                start as int,
                size,
                slot_count(start as int, end as int, size),
                excluded@,
            ),
            LocationsStyle::Offsetted { base, offsets } => offsets@.map_values(
                |p: (u16, V)| (base + p.0) as usize,
            ),
            LocationsStyle::Masked { base, mask, values } => masked_addrs(
                base as int,
                size,
                mask@,
            ),
        }
    }

    /// The values recorded at the surviving addresses, in the same order.
    pub open spec fn vals(self) -> Seq<V> {
        match self {
            LocationsStyle::KeyValue(entries) => entries@.map_values(|p: (usize, V)| p.1),
            LocationsStyle::SameValue { locations, value } => Seq::new(
                locations@.len(),
                |i: int| value,
            ),
            LocationsStyle::Range { values, .. } => values@,
            LocationsStyle::ExcludedRange { values, .. } => values@,
            LocationsStyle::Offsetted { offsets, .. } => offsets@.map_values(|p: (u16, V)| p.1),
            LocationsStyle::Masked { values, .. } => values@,
        }
    }

    /// The `(address, value)` pairs this store denotes, ascending by address.
    pub open spec fn pairs(self) -> Seq<(usize, V)> {
        Seq::new(self.addrs().len(), |i: int| (self.addrs()[i], self.vals()[i]))
    }

    /// Number of surviving locations.
    pub open spec fn spec_len(self) -> nat {
        self.addrs().len()
    }

    /// Bounds validity: enough to enumerate the addresses without the
    /// arithmetic leaving the machine word.
    pub open spec fn addr_wf(self) -> bool {
        let size = V::byte_size() as int;
        &&& 1 <= size
        &&& match self {
            LocationsStyle::KeyValue(entries) => forall|i: int|
                0 <= i < entries@.len() ==> (#[trigger] entries@[i]).0 + size <= usize::MAX,
            LocationsStyle::SameValue { locations, .. } => forall|i: int|
                0 <= i < locations@.len() ==> #[trigger] locations@[i] + size <= usize::MAX,
            LocationsStyle::Range { start, end, .. } => {
                &&& start <= end
                &&& (start < end ==> start + (slot_count(start as int, end as int, size) - 1)
                    * size + size <= usize::MAX)
            },
            LocationsStyle::ExcludedRange { start, end, .. } => {
                &&& start <= end
                &&& (start < end ==> start + (slot_count(start as int, end as int, size) - 1)
                    * size + size <= usize::MAX)
            },
            LocationsStyle::Offsetted { base, offsets } => forall|i: int|
                0 <= i < offsets@.len() ==> base + (#[trigger] offsets@[i]).0 + size <= usize::MAX,
            LocationsStyle::Masked { base, mask, .. } => mask@.len() > 0 ==> base + (mask@.len()
                - 1) * size + size <= usize::MAX,
        }
    }

    /// A legal store: bounds hold, one value per address, addresses strictly
    /// ascending and mutually aligned at the value kind's width, and the
    /// encoding-specific bookkeeping is consistent.
    pub open spec fn wf(self) -> bool {
        let size = V::byte_size() as int;
        &&& self.addr_wf()
        &&& self.addrs().len() == self.vals().len()
        &&& sorted_strict(self.addrs())
        &&& mutually_aligned(self.addrs(), size)
        &&& match self {
            LocationsStyle::ExcludedRange { start, end, excluded, .. } => {
                &&& sorted_strict(excluded@)
                &&& (forall|i: int|
                    0 <= i < excluded@.len() ==> {
                        &&& start <= #[trigger] excluded@[i] < end
                        &&& (excluded@[i] - start) % size == 0
                    })
            },
            _ => true,
        }
    }

    /// Whether `addr` is one of the surviving addresses.
    pub open spec fn contains_addr(self, addr: usize) -> bool {
        self.addrs().contains(addr)
    }

    /// Index of `addr` among the surviving addresses.
    pub open spec fn addr_index(self, addr: usize) -> int {
        choose|i: int| 0 <= i < self.addrs().len() && self.addrs()[i] == addr
    }

    /// The value recorded at the surviving address `addr`.
    pub open spec fn stored_value(self, addr: usize) -> V {
        self.vals()[self.addr_index(addr)]
    }

    /// The index of a surviving address is well defined and unique.
    pub proof fn lemma_addr_index(self, addr: usize)
        requires
            self.wf(),
            self.contains_addr(addr),
        ensures
            0 <= self.addr_index(addr) < self.addrs().len(),
            self.addrs()[self.addr_index(addr)] == addr,
            forall|i: int|
                0 <= i < self.addrs().len() && self.addrs()[i] == addr ==> i == self.addr_index(
                    addr,
                ),
    {
        let s = self.addrs();
        assert(exists|i: int| 0 <= i < s.len() && s[i] == addr);
        let k = self.addr_index(addr);
        assert forall|i: int| 0 <= i < s.len() && s[i] == addr implies i == k by {
            if i < k {
                assert(s[i] < s[k]);
            }
            if i > k {
                assert(s[k] < s[i]);
            }
        }
    }

    /// In a legal store every stored address heads a full value's span of
    /// memory.
    pub proof fn lemma_wf_addr_bounds(self)
        requires
            self.wf(),
        ensures
            forall|i: int|
                0 <= i < self.addrs().len() ==> #[trigger] self.addrs()[i] + V::byte_size()
                    <= usize::MAX,
    {
        let size = V::byte_size() as int;
        match self {
            LocationsStyle::KeyValue(entries) => {
                assert forall|i: int|
                    0 <= i < self.addrs().len() implies #[trigger] self.addrs()[i] + V::byte_size()
                    <= usize::MAX by {
                    assert(self.addrs()[i] == entries@[i].0);
                }
            },
            LocationsStyle::SameValue { locations, .. } => {
                assert forall|i: int|
                    0 <= i < self.addrs().len() implies #[trigger] self.addrs()[i] + V::byte_size()
                    <= usize::MAX by {
                    assert(self.addrs()[i] == locations@[i]);
                }
            },
            LocationsStyle::Range { start, end, .. } => {
                assert forall|i: int|
                    0 <= i < self.addrs().len() implies #[trigger] self.addrs()[i] + V::byte_size()
                    <= usize::MAX by {
                    lemma_slot_in_span(start as int, end as int, size, i);
                    assert(i * size <= (slot_count(start as int, end as int, size) - 1) * size)
                        by (nonlinear_arith)
                        requires
                            0 <= i <= slot_count(start as int, end as int, size) - 1,
                            size >= 1,
                    ;
                }
            },
            LocationsStyle::ExcludedRange { start, end, excluded, .. } => {
                lemma_span_slots_fit(start as int, end as int, size);
                lemma_kept_stride_props(
                    start as int,
                    size,
                    slot_count(start as int, end as int, size),
                    excluded@,
                );
                assert forall|i: int|
                    0 <= i < self.addrs().len() implies #[trigger] self.addrs()[i] + V::byte_size()
                    <= usize::MAX by {
                    assert(self.addrs().contains(self.addrs()[i]));
                    let j = choose|j: int|
                        0 <= j < slot_count(start as int, end as int, size) && self.addrs()[i]
                            == start + #[trigger] (j * size) && !excluded@.contains(
                            self.addrs()[i],
                        );
                    lemma_slot_in_span(start as int, end as int, size, j);
                    assert(j * size <= (slot_count(start as int, end as int, size) - 1) * size)
                        by (nonlinear_arith)
                        requires
                            0 <= j <= slot_count(start as int, end as int, size) - 1,
                            size >= 1,
                    ;
                }
            },
            LocationsStyle::Offsetted { base, offsets } => {
                assert forall|i: int|
                    0 <= i < self.addrs().len() implies #[trigger] self.addrs()[i] + V::byte_size()
                    <= usize::MAX by {
                    assert(self.addrs()[i] == (base + offsets@[i].0) as usize);
                    assert(base + (#[trigger] offsets@[i]).0 + size <= usize::MAX);
                }
            },
            LocationsStyle::Masked { base, mask, .. } => {
                lemma_mask_slots_fit(base as int, size, mask@.len() as int);
                lemma_masked_addrs_props(base as int, size, mask@);
                assert forall|i: int|
                    0 <= i < self.addrs().len() implies #[trigger] self.addrs()[i] + V::byte_size()
                    <= usize::MAX by {
                    assert(self.addrs().contains(self.addrs()[i]));
                    let j = choose|j: int|
                        0 <= j < mask@.len() && #[trigger] mask@[j] && self.addrs()[i] == base + j
                            * size;
                    assert(j * size <= (mask@.len() - 1) * size) by (nonlinear_arith)
                        requires
                            0 <= j <= mask@.len() - 1,
                            size >= 1,
                    ;
                }
            },
        }
    }

    /// For an excluded-range store, the survivor count is the slot count of
    /// the span minus the number of excluded addresses.
    pub proof fn lemma_excluded_range_len(self)
        requires
            self.wf(),
            self is ExcludedRange,
        ensures
            self.spec_len() + self->ExcludedRange_excluded@.len() == slot_count(
                self->ExcludedRange_start as int,
                self->ExcludedRange_end as int,
                V::byte_size() as int,
            ),
    {
        let size = V::byte_size() as int;
        let start = self->ExcludedRange_start;
        let end = self->ExcludedRange_end;
        let excluded = self->ExcludedRange_excluded@;
        let sc = slot_count(start as int, end as int, size);
        lemma_span_slots_fit(start as int, end as int, size);
        assert forall|i: int| 0 <= i < excluded.len() implies slot_member(
            start as int,
            size,
            sc,
            #[trigger] excluded[i],
        ) by {
            let e = excluded[i] as int;
            let j = (e - start) / size;
            vstd::arithmetic::div_mod::lemma_fundamental_div_mod(e - start, size);
            assert(e - start == size * j);
            vstd::arithmetic::div_mod::lemma_div_is_ordered(e - start, end - 1 - start, size);
            assert(sc - 1 == (end - 1 - start) / size);
            vstd::arithmetic::div_mod::lemma_div_pos_is_pos(e - start, size);
            assert(size * j == j * size) by (nonlinear_arith);
            assert(excluded[i] == ((start + j * size) as usize));
            assert(0 <= j < sc && excluded[i] == ((start as int + #[trigger] (j * size)) as usize));
        }
        lemma_kept_len_partition(start as int, size, sc, excluded);
    }

    /// Return the amount of locations.
    pub fn len(&self) -> (n: usize)
        requires
            self.wf(),
        ensures
            n == self.spec_len(),
    {
        match self {
            LocationsStyle::KeyValue(entries) => entries.len(),
            LocationsStyle::SameValue { locations, .. } => locations.len(),
            LocationsStyle::Range { values, .. } => values.len(),
            LocationsStyle::ExcludedRange { values, .. } => values.len(),
            LocationsStyle::Offsetted { offsets, .. } => offsets.len(),
            LocationsStyle::Masked { values, .. } => values.len(),
        }
    }

    /// The deterministic compaction policy. Given the discrete entries of a
    /// `KeyValue` store with at least two entries, this says which encoding
    /// `try_compact` chooses and exactly what that encoding holds. With
    /// `low`/`high` the smallest and largest key, `slots` the number of stride
    /// slots between them, and `len` the number of entries, the first clause
    /// that holds wins:
    /// a fully occupied stride becomes `Range`; a stride of at most a machine
    /// word of slots whose mask is smaller than the discrete keys becomes
    /// `Masked`; a stride at least 95% occupied becomes `ExcludedRange`; a
    /// span of at most 16 bits becomes `Offsetted`; anything else stays
    /// `KeyValue`.
    pub open spec fn is_compaction_of(self, entries: Seq<(usize, V)>) -> bool
        recommends
            entries.len() >= 2,
    {
        let size = V::byte_size() as int;
        let len = entries.len() as int;
        let low = entries[0].0;
        let high = entries[len - 1].0;
        let slots = (high - low) / size + 1;
        let word = usize::BITS as int / 8;
        let vals = entries.map_values(|p: (usize, V)| p.1);
        if len == slots {
            self matches LocationsStyle::Range { start, end, values } && start == low && end
                == high + 1 && values@ == vals
        } else if slots <= usize::BITS && word + slots < len * word {
            self matches LocationsStyle::Masked { base, mask, values } && base == low && mask@
                == Seq::new(slots as nat, |j: int| has_key(entries, low + j * size)) && values@
                == vals
        } else if 20 * len >= 19 * slots {
            self matches LocationsStyle::ExcludedRange { start, end, excluded, values } && start
                == low && end == high + 1 && excluded@ == missing_stride_addrs(
                low as int,
                size,
                slots,
                entries,
            ) && values@ == vals
        } else if high - low <= u16::MAX {
            self matches LocationsStyle::Offsetted { base, offsets } && base == low && offsets@
                == entries.map_values(|p: (usize, V)| (((p.0 - low) as u16), p.1))
        } else {
            self matches LocationsStyle::KeyValue(es) && es@ == entries
        }
    }

    /// Return the location addresses, in ascending order.
    pub fn addresses(&self) -> (r: Vec<usize>)
        requires
            self.addr_wf(),
        ensures
            r@ == self.addrs(),
    {
        proof {
            V::byte_size_bounds();
        }
        let size = V::size();
        match self {
            LocationsStyle::KeyValue(entries) => {
                let n = entries.len();
                let mut r: Vec<usize> = Vec::new();
                let mut i: usize = 0;
                while i < n
                    invariant
                        i <= n,
                        n == entries@.len(),
                        r@.len() == i,
                        forall|j: int| 0 <= j < i ==> r@[j] == entries@[j].0,
                    decreases n - i,
                {
                    r.push(entries[i].0);
                    i += 1;
                }
                proof {
                    assert(r@ =~= entries@.map_values(|p: (usize, V)| p.0));
                }
                r
            },
            LocationsStyle::SameValue { locations, .. } => {
                let n = locations.len();
                let mut r: Vec<usize> = Vec::new();
                let mut i: usize = 0;
                while i < n
                    invariant
                        i <= n,
                        n == locations@.len(),
                        r@.len() == i,
                        forall|j: int| 0 <= j < i ==> r@[j] == locations@[j],
                    decreases n - i,
                {
                    r.push(locations[i]);
                    i += 1;
                }
                proof {
                    assert(r@ =~= locations@);
                }
                r
            },
            LocationsStyle::Range { start, end, .. } => {
                let n: usize = if *end <= *start {
                    0
                } else {
                    (*end - *start - 1) / size + 1
                };
                let mut r: Vec<usize> = Vec::new();
                let mut i: usize = 0;
                while i < n
                    invariant
                        i <= n,
                        size == V::byte_size(),
                        1 <= size,
                        *start <= *end,
                        n == slot_count(*start as int, *end as int, size as int),
                        r@.len() == i,
                        forall|j: int|
                            0 <= j < i ==> r@[j] == ((*start + #[trigger] (j * size)) as usize),
                    decreases n - i,
                {
                    proof {
                        lemma_slot_in_span(*start as int, *end as int, size as int, i as int);
                    }
                    let a = *start + i * size;
                    r.push(a);
                    i += 1;
                }
                proof {
                    assert(r@ =~= self.addrs());
                }
                r
            },
            LocationsStyle::ExcludedRange { start, end, excluded, values } => {
                let slots: usize = if *end <= *start {
                    0
                } else {
                    (*end - *start - 1) / size + 1
                };
                let mut r: Vec<usize> = Vec::new();
                let mut k: usize = 0;
                while k < slots
                    invariant
                        k <= slots,
                        size == V::byte_size(),
                        1 <= size,
                        *start <= *end,
                        slots == slot_count(*start as int, *end as int, size as int),
                        (*start < *end ==> *start + (slot_count(
                            *start as int,
                            *end as int,
                            size as int,
                        ) - 1) * (size as int) + size <= usize::MAX),
                        r@ == kept_stride_addrs(*start as int, size as int, k as int, excluded@),
                    decreases slots - k,
                {
                    proof {
                        lemma_slot_in_span(*start as int, *end as int, size as int, k as int);
                    }
                    let a = *start + k * size;
                    if !vec_contains_usize(excluded, a) {
                        r.push(a);
                    }
                    proof {
                        assert(kept_stride_addrs(
                            *start as int,
                            size as int,
                            k + 1,
                            excluded@,
                        ) == if excluded@.contains(a) {
                            kept_stride_addrs(*start as int, size as int, k as int, excluded@)
                        } else {
                            kept_stride_addrs(*start as int, size as int, k as int, excluded@).push(
                                a,
                            )
                        });
                    }
                    k += 1;
                }
                r
            },
            LocationsStyle::Offsetted { base, offsets } => {
                let n = offsets.len();
                let mut r: Vec<usize> = Vec::new();
                let mut i: usize = 0;
                while i < n
                    invariant
                        i <= n,
                        n == offsets@.len(),
                        size == V::byte_size(),
                        1 <= size,
                        forall|j: int|
                            0 <= j < n ==> *base + #[trigger] (offsets@[j].0) + size <= usize::MAX,
                        r@.len() == i,
                        forall|j: int| 0 <= j < i ==> r@[j] == ((*base + offsets@[j].0) as usize),
                    decreases n - i,
                {
                    let a = *base + (offsets[i].0 as usize);
                    r.push(a);
                    i += 1;
                }
                proof {
                    assert(r@ =~= offsets@.map_values(|p: (u16, V)| (*base + p.0) as usize));
                }
                r
            },
            LocationsStyle::Masked { base, mask, values } => {
                let n = mask.len();
                let mut r: Vec<usize> = Vec::new();
                let mut j: usize = 0;
                while j < n
                    invariant
                        j <= n,
                        n == mask@.len(),
                        size == V::byte_size(),
                        1 <= size,
                        (n > 0 ==> *base + (n - 1) * size + size <= usize::MAX),
                        r@ == masked_addrs(*base as int, size as int, mask@.take(j as int)),
                    decreases n - j,
                {
                    proof {
                        assert((j as int) * (size as int) <= (n - 1) * (size as int))
                            by (nonlinear_arith)
                            requires
                                0 <= j as int <= n - 1,
                                size >= 1,
                        ;
                        assert(mask@.take(j + 1).drop_last() =~= mask@.take(j as int));
                    }
                    let a = *base + j * size;
                    if mask[j] {
                        r.push(a);
                    }
                    proof {
                        assert(masked_addrs(
                            *base as int,
                            size as int,
                            mask@.take(j + 1),
                        ) == if mask@[j as int] {
                            masked_addrs(*base as int, size as int, mask@.take(j as int)).push(a)
                        } else {
                            masked_addrs(*base as int, size as int, mask@.take(j as int))
                        });
                    }
                    j += 1;
                }
                proof {
                    assert(mask@.take(n as int) =~= mask@);
                }
                r
            },
        }
    }

    /// Return the locations, flattened to `(address, value)` form.
    pub fn into_locations(self) -> (r: Vec<Location<V>>)
        requires
            self.wf(),
        ensures
            r@.len() == self.spec_len(),
            forall|i: int|
                0 <= i < r@.len() ==> (#[trigger] r@[i]).address == self.addrs()[i]
                    && r@[i].value == self.vals()[i],
    {
        let addrs = self.addresses();
        let vals: Vec<V> = match self {
            LocationsStyle::KeyValue(entries) => {
                let n = entries.len();
                let mut vs: Vec<V> = Vec::new();
                let mut i: usize = 0;
                while i < n
                    invariant
                        i <= n,
                        n == entries@.len(),
                        vs@.len() == i,
                        forall|j: int| 0 <= j < i ==> vs@[j] == entries@[j].1,
                    decreases n - i,
                {
                    vs.push(entries[i].1);
                    i += 1;
                }
                vs
            },
            LocationsStyle::SameValue { locations, value } => {
                let n = locations.len();
                let mut vs: Vec<V> = Vec::new();
                let mut i: usize = 0;
                while i < n
                    invariant
                        i <= n,
                        vs@.len() == i,
                        forall|j: int| 0 <= j < i ==> vs@[j] == value,
                    decreases n - i,
                {
                    vs.push(value);
                    i += 1;
                }
                vs
            },
            LocationsStyle::Range { values, .. } => values,
            LocationsStyle::ExcludedRange { values, .. } => values,
            LocationsStyle::Offsetted { base, offsets } => {
                let n = offsets.len();
                let mut vs: Vec<V> = Vec::new();
                let mut i: usize = 0;
                while i < n
                    invariant
                        i <= n,
                        n == offsets@.len(),
                        vs@.len() == i,
                        forall|j: int| 0 <= j < i ==> vs@[j] == offsets@[j].1,
                    decreases n - i,
                {
                    vs.push(offsets[i].1);
                    i += 1;
                }
                vs
            },
            LocationsStyle::Masked { values, .. } => values,
        };
        proof {
            assert(vals@ =~= self.vals());
        }
        let n = addrs.len();
        let mut r: Vec<Location<V>> = Vec::new();
        let mut i: usize = 0;
        while i < n
            invariant
                i <= n,
                n == addrs@.len(),
                addrs@ == self.addrs(),
                vals@ == self.vals(),
                vals@.len() == n,
                r@.len() == i,
                forall|j: int|
                    0 <= j < i ==> (#[trigger] r@[j]).address == addrs@[j] && r@[j].value
                        == vals@[j],
            decreases n - i,
        {
            r.push(Location { address: addrs[i], value: vals[i] });
            i += 1;
        }
        r
    }

    /// Tries to compact the style into a more efficient representation.
    ///
    /// A `KeyValue` store with at least two entries is rewritten into the
    /// first encoding of the policy whose clause holds (`is_compaction_of`),
    /// preserving the denoted `(address, value)` pairs exactly. Any other
    /// store is left untouched.
    pub fn try_compact(&mut self)
        requires
            (*old(self)) is KeyValue ==> old(self).wf(),
        ensures
            old(self).wf() ==> final(self).wf(),
            final(self).pairs() == old(self).pairs(),
            match *old(self) {
                LocationsStyle::KeyValue(entries) => {
                    if entries@.len() > 1 {
                        final(self).is_compaction_of(entries@)
                    } else {
                        *final(self) == *old(self)
                    }
                },
                _ => { *final(self) == *old(self) },
            },
    {
        proof {
            V::byte_size_bounds();
        }
        let size = V::size();
        let do_it = match &*self {
            LocationsStyle::KeyValue(entries) => entries.len() > 1,
            _ => false,
        };
        if !do_it {
            return;
        }
        let mut entries: Vec<(usize, V)> = Vec::new();
        match self {
            LocationsStyle::KeyValue(v) => core::mem::swap(v, &mut entries),
            _ => {
                proof {
                    assert(false);
                }
            },
        }
        let ghost orig = *old(self);
        let ghost keys = entries@.map_values(|p: (usize, V)| p.0);
        let ghost evals = entries@.map_values(|p: (usize, V)| p.1);
        proof {
            assert(orig.addrs() == keys);
            assert(orig.vals() == evals);
        }
        let len = entries.len();
        let low = entries[0].0;
        let high = entries[len - 1].0;
        proof {
            assert(keys[0] == low && keys[len - 1] == high);
            assert(low < high);
            assert(entries@[len - 1].0 + V::byte_size() <= usize::MAX);
        }
        let span = high - low;
        proof {
            vstd::arithmetic::div_mod::lemma_div_nonincreasing(span as int, size as int);
            vstd::arithmetic::div_mod::lemma_div_pos_is_pos(span as int, size as int);
        }
        let slots = span / size + 1;
        let ghost gslots = slot_count(low as int, high + 1, size as int);
        proof {
            assert(slots == gslots);
            lemma_aligned_diff(low as int, high as int, size as int);
            assert((slots as int - 1) * (size as int) == high - low) by (nonlinear_arith)
                requires
                    slots as int - 1 == (high - low) as int / (size as int),
                    (high - low) as int == (size as int) * ((high - low) as int / (size as int)),
            ;
            // the entry count never exceeds the slot count
            lemma_sorted_aligned_spread(keys, size as int, len - 1);
            vstd::arithmetic::div_mod::lemma_div_is_ordered(
                (len - 1) * (size as int),
                span as int,
                size as int,
            );
            vstd::arithmetic::div_mod::lemma_div_multiples_vanish(len - 1, size as int);
            assert((size as int) * (len - 1) == (len - 1) * (size as int)) by (nonlinear_arith);
            assert(len <= slots);
        }
        let mut vs: Vec<V> = Vec::new();
        let mut i: usize = 0;
        while i < len
            invariant
                i <= len,
                len == entries@.len(),
                vs@.len() == i,
                forall|j: int| 0 <= j < i ==> vs@[j] == (#[trigger] entries@[j]).1,
            decreases len - i,
        {
            vs.push(entries[i].1);
            i += 1;
        }
        proof {
            assert(vs@ =~= evals);
        }
        // Can the entire set be represented with the range style?
        if len == slots {
            proof {
                lemma_dense(keys, size as int);
            }
            *self = LocationsStyle::Range { start: low, end: high + 1, values: vs };
            proof {
                assert forall|ii: int| 0 <= ii < len implies self.addrs()[ii] == keys[ii] by {
                    assert(keys[ii] == keys[0] + ii * (size as int));
                }
                assert(self.addrs() =~= keys);
                assert(self.pairs() =~= orig.pairs());
            }
            return;
        }
        // Would a bit mask over the whole stride be smaller?
        let word: usize = (usize::BITS as usize) / 8;
        proof {
            assert((len as u128) * (word as u128) <= u128::MAX) by (nonlinear_arith)
                requires
                    len as u128 <= 0xffff_ffff_ffff_ffffu128,
                    word as u128 <= 0xffff_ffff_ffff_ffffu128,
            ;
        }
        if slots <= (usize::BITS as usize) && (word as u128) + (slots as u128) < (len as u128) * (
        word as u128) {
            let mut mask: Vec<bool> = Vec::new();
            let mut j: usize = 0;
            while j < slots
                invariant
                    j <= slots,
                    size == V::byte_size(),
                    1 <= size,
                    len == entries@.len(),
                    low < high,
                    high + size <= usize::MAX,
                    slots == slot_count(low as int, high + 1, size as int),
                    mask@ =~= Seq::new(
                        j as nat,
                        |jj: int| has_key(entries@, low + jj * (size as int)),
                    ),
                decreases slots - j,
            {
                proof {
                    lemma_slot_in_span(low as int, high + 1, size as int, j as int);
                }
                let a = low + j * size;
                let b = keys_contain(&entries, a);
                mask.push(b);
                proof {
                    assert(mask@ =~= Seq::new(
                        (j + 1) as nat,
                        |jj: int| has_key(entries@, low + jj * (size as int)),
                    ));
                }
                j += 1;
            }
            proof {
                lemma_span_slots_fit(low as int, high + 1, size as int);
                lemma_masked_addrs_props(low as int, size as int, mask@);
                let ma = masked_addrs(low as int, size as int, mask@);
                assert forall|a: usize| ma.contains(a) <==> keys.contains(a) by {
                    if ma.contains(a) {
                        let jj = choose|jj: int|
                            0 <= jj < mask@.len() && #[trigger] mask@[jj] && a == low + jj * (
                            size as int);
                        assert(has_key(entries@, low + jj * (size as int)));
                        let ei = choose|ei: int|
                            0 <= ei < entries@.len() && (#[trigger] entries@[ei]).0 == a as int;
                        assert(keys[ei] == a);
                        assert(keys.contains(a));
                    }
                    if keys.contains(a) {
                        let ki = choose|ki: int| 0 <= ki < keys.len() && keys[ki] == a;
                        lemma_member_is_slot(keys, size as int, ki);
                        let jj = choose|jj: int|
                            0 <= jj < slot_count(keys[0] as int, keys.last() + 1, size as int)
                                && keys[ki] == keys[0] + #[trigger] (jj * (size as int));
                        assert(entries@[ki].0 == a as int);
                        assert(has_key(entries@, low + jj * (size as int)));
                        assert(mask@[jj]);
                        assert(ma.contains(a));
                    }
                }
                lemma_sorted_unique(ma, keys);
            }
            *self = LocationsStyle::Masked { base: low, mask, values: vs };
            proof {
                assert(self.addrs() == keys);
                assert(self.pairs() =~= orig.pairs());
                assert((slots - 1) * (size as int) + size == slots * (size as int))
                    by (nonlinear_arith);
                lemma_slot_in_span(low as int, high + 1, size as int, slots - 1);
            }
            return;
        }
        // Is the stride at least 95% occupied?
        if 20u128 * (len as u128) >= 19u128 * (slots as u128) {
            let mut ex: Vec<usize> = Vec::new();
            let mut j: usize = 0;
            while j < slots
                invariant
                    j <= slots,
                    size == V::byte_size(),
                    1 <= size,
                    len == entries@.len(),
                    low < high,
                    high + size <= usize::MAX,
                    slots == slot_count(low as int, high + 1, size as int),
                    ex@ == missing_stride_addrs(low as int, size as int, j as int, entries@),
                decreases slots - j,
            {
                proof {
                    lemma_slot_in_span(low as int, high + 1, size as int, j as int);
                }
                let a = low + j * size;
                if !keys_contain(&entries, a) {
                    ex.push(a);
                }
                proof {
                    assert(missing_stride_addrs(
                        low as int,
                        size as int,
                        j + 1,
                        entries@,
                    ) == if has_key(entries@, a as int) {
                        missing_stride_addrs(low as int, size as int, j as int, entries@)
                    } else {
                        missing_stride_addrs(low as int, size as int, j as int, entries@).push(a)
                    });
                }
                j += 1;
            }
            proof {
                lemma_span_slots_fit(low as int, high + 1, size as int);
                lemma_missing_stride_props(low as int, size as int, slots as int, entries@);
                lemma_kept_stride_props(low as int, size as int, slots as int, ex@);
                let ka = kept_stride_addrs(low as int, size as int, slots as int, ex@);
                assert forall|a: usize| ka.contains(a) <==> keys.contains(a) by {
                    if ka.contains(a) {
                        let jj = choose|jj: int|
                            0 <= jj < slots && a == low + #[trigger] (jj * (size as int))
                                && !ex@.contains(a);
                        assert(has_key(entries@, a as int));
                        let ei = choose|ei: int|
                            0 <= ei < entries@.len() && (#[trigger] entries@[ei]).0 == a as int;
                        assert(keys[ei] == a);
                        assert(keys.contains(a));
                    }
                    if keys.contains(a) {
                        let ki = choose|ki: int| 0 <= ki < keys.len() && keys[ki] == a;
                        lemma_member_is_slot(keys, size as int, ki);
                        let jj = choose|jj: int|
                            0 <= jj < slot_count(keys[0] as int, keys.last() + 1, size as int)
                                && keys[ki] == keys[0] + #[trigger] (jj * (size as int));
                        assert(entries@[ki].0 == a as int);
                        assert(has_key(entries@, a as int));
                        assert(!ex@.contains(a));
                        assert(ka.contains(a));
                    }
                }
                lemma_sorted_unique(ka, keys);
            }
            *self = LocationsStyle::ExcludedRange {
                start: low,
                end: high + 1,
                excluded: ex,
                values: vs,
            };
            proof {
                assert(self.addrs() == keys);
                assert(self.pairs() =~= orig.pairs());
                let exs = self->ExcludedRange_excluded@;
                assert forall|ii: int| 0 <= ii < exs.len() implies low <= #[trigger] exs[ii] < high
                    + 1 && (exs[ii] - low) % (size as int) == 0 by {
                    assert(exs.contains(exs[ii]));
                    let jj = choose|jj: int|
                        0 <= jj < slots && exs[ii] == low + #[trigger] (jj * (size as int))
                            && !has_key(entries@, exs[ii] as int);
                    lemma_slot_in_span(low as int, high + 1, size as int, jj);
                    vstd::arithmetic::div_mod::lemma_mod_multiples_basic(jj, size as int);
                    assert((size as int) * jj == jj * (size as int)) by (nonlinear_arith);
                }
            }
            return;
        }
        // Does every key fit a 16-bit offset from the lowest one?
        if span <= 0xffff {
            let mut offs: Vec<(u16, V)> = Vec::new();
            let mut i2: usize = 0;
            while i2 < len
                invariant
                    i2 <= len,
                    len == entries@.len(),
                    low == entries@[0].0,
                    high == entries@[len - 1].0,
                    high - low <= 0xffff,
                    sorted_strict(entries@.map_values(|p: (usize, V)| p.0)),
                    offs@.len() == i2,
                    forall|j: int|
                        0 <= j < i2 ==> (#[trigger] offs@[j]).0 == ((entries@[j].0 - low) as u16)
                            && offs@[j].1 == entries@[j].1,
                decreases len - i2,
            {
                proof {
                    let ks = entries@.map_values(|p: (usize, V)| p.0);
                    if i2 > 0 {
                        assert(ks[0] < ks[i2 as int]);
                    }
                    if i2 < len - 1 {
                        assert(ks[i2 as int] < ks[len - 1]);
                    }
                    assert(low <= entries@[i2 as int].0 <= high);
                }
                let off = entries[i2].0 - low;
                offs.push((off as u16, entries[i2].1));
                i2 += 1;
            }
            *self = LocationsStyle::Offsetted { base: low, offsets: offs };
            proof {
                assert forall|ii: int| 0 <= ii < len implies self.addrs()[ii] == keys[ii] by {
                    assert(offs@[ii].0 == ((entries@[ii].0 - low) as u16));
                    assert(keys[0] <= keys[ii] <= keys[len - 1]);
                }
                assert(self.addrs() =~= keys);
                assert(self.vals() =~= evals);
                assert(self.pairs() =~= orig.pairs());
                assert(offs@ =~= entries@.map_values(
                    |p: (usize, V)| (((p.0 - low) as u16), p.1),
                ));
                assert forall|ii: int| 0 <= ii < len implies low + (#[trigger] offs@[ii]).0
                    + size <= usize::MAX by {
                    assert(keys[0] <= keys[ii] <= keys[len - 1]);
                    assert(entries@[ii].0 + V::byte_size() <= usize::MAX);
                }
            }
            return;
        }
        // Neither attempt is better: keep the discrete representation.
        *self = LocationsStyle::KeyValue(entries);
        proof {
            assert(*self == orig);
        }
    }

    /// Same encoding with the same contents, field by field.
    pub open spec fn equiv(self, other: LocationsStyle<V>) -> bool {
        match (self, other) {
            (LocationsStyle::KeyValue(a), LocationsStyle::KeyValue(b)) => a@ == b@,
            (
                LocationsStyle::SameValue { locations: a, value: va },
                LocationsStyle::SameValue { locations: b, value: vb },
            ) => a@ == b@ && va == vb,
            (
                LocationsStyle::Range { start: sa, end: ea, values: va },
                LocationsStyle::Range { start: sb, end: eb, values: vb },
            ) => sa == sb && ea == eb && va@ == vb@,
            (
                LocationsStyle::ExcludedRange { start: sa, end: ea, excluded: xa, values: va },
                LocationsStyle::ExcludedRange { start: sb, end: eb, excluded: xb, values: vb },
            ) => sa == sb && ea == eb && xa@ == xb@ && va@ == vb@,
            (
                LocationsStyle::Offsetted { base: ba, offsets: oa },
                LocationsStyle::Offsetted { base: bb, offsets: ob },
            ) => ba == bb && oa@ == ob@,
            (
                LocationsStyle::Masked { base: ba, mask: ma, values: va },
                LocationsStyle::Masked { base: bb, mask: mb, values: vb },
            ) => ba == bb && ma@ == mb@ && va@ == vb@,
            _ => false,
        }
    }

    /// Equivalent stores denote the same addresses and values and are equally
    /// well formed.
    pub proof fn lemma_equiv_same_model(self, other: LocationsStyle<V>)
        requires
            self.equiv(other),
        ensures
            self.addrs() == other.addrs(),
            self.vals() == other.vals(),
            self.pairs() == other.pairs(),
            self.addr_wf() == other.addr_wf(),
            self.wf() == other.wf(),
    {
        assert(self.addrs() =~= other.addrs());
        assert(self.vals() =~= other.vals());
        assert(self.pairs() =~= other.pairs());
    }
}

impl<V: Scannable> Clone for LocationsStyle<V> {
    /// Clone the store; the copy has the same encoding and the same contents.
    fn clone(&self) -> (r: Self)
        ensures
            r.equiv(*self),
    {
        match self {
            LocationsStyle::KeyValue(entries) => LocationsStyle::KeyValue(copy_vec(entries)),
            LocationsStyle::SameValue { locations, value } => LocationsStyle::SameValue {
                locations: copy_vec(locations),
                value: *value,
            },
            LocationsStyle::Range { start, end, values } => LocationsStyle::Range {
                start: *start,
                end: *end,
                values: copy_vec(values),
            },
            LocationsStyle::ExcludedRange { start, end, excluded, values } => {
                LocationsStyle::ExcludedRange {
                    start: *start,
                    end: *end,
                    excluded: copy_vec(excluded),
                    values: copy_vec(values),
                }
            },
            LocationsStyle::Offsetted { base, offsets } => LocationsStyle::Offsetted {
                base: *base,
                offsets: copy_vec(offsets),
            },
            LocationsStyle::Masked { base, mask, values } => LocationsStyle::Masked {
                base: *base,
                mask: copy_vec(mask),
                values: copy_vec(values),
            },
        }
    }
}

/// Copy of a vector of plain values.
fn copy_vec<T: Copy>(v: &Vec<T>) -> (r: Vec<T>)
    ensures
        r@ == v@,
{
    let n = v.len();
    let mut r: Vec<T> = Vec::new();
    let mut i: usize = 0;
    while i < n
        invariant
            i <= n,
            n == v@.len(),
            r@.len() == i,
            forall|j: int| 0 <= j < i ==> r@[j] == v@[j],
        decreases n - i,
    {
        r.push(v[i]);
        i += 1;
    }
    proof {
        assert(r@ =~= v@);
    }
    r
}

/// The raw information about one memory region of the scanned program: its
/// base address, its byte size, and its protection bitmap as the operating
/// system reports it. Addresses refer to the scanned program's address space
/// and are never dereferenced here.
#[derive(Clone, Copy, Debug, PartialEq, Eq, Structural)]
pub struct RegionInfo {
    /// Base address of the region.
    pub base: usize,
    /// Byte size of the region.
    pub size: usize,
    /// Protection bitmap.
    pub protect: u32,
}

/// A memory region: its raw information, and the candidate locations that
/// should be considered during subsequent scans.
#[derive(Debug, PartialEq)]
pub struct Region<V: Scannable> {
    /// The raw information about this memory region.
    pub info: RegionInfo,
    /// Candidate locations that should be considered during subsequent scans.
    pub locations: LocationsStyle<V>,
}

impl<V: Scannable> Region<V> {
    /// A legal region: a legal store whose addresses lie inside the region's
    /// span, on the stride given by the value kind's width.
    pub open spec fn wf(self) -> bool {
        let size = V::byte_size() as int;
        &&& self.locations.wf()
        &&& self.info.base + self.info.size <= usize::MAX + 1
        &&& forall|i: int|
            0 <= i < self.locations.addrs().len() ==> {
                let a = #[trigger] self.locations.addrs()[i];
                &&& self.info.base <= a
                &&& a + size <= self.info.base + self.info.size
                &&& (a - self.info.base) % size == 0
            }
    }

    /// Return the value stored at `addr`, which must be a surviving address.
    pub fn value_at(&self, addr: usize) -> (v: V)
        requires
            self.wf(),
            self.locations.contains_addr(addr),
        ensures
            v == self.locations.stored_value(addr),
    {
        proof {
            V::byte_size_bounds();
            self.locations.lemma_addr_index(addr);
        }
        let size = V::size();
        match &self.locations {
            LocationsStyle::KeyValue(entries) => {
                let n = entries.len();
                let mut i: usize = 0;
                while i < n
                    invariant
                        i <= n,
                        n == entries@.len(),
                        self.locations is KeyValue,
                        entries@ == self.locations->KeyValue_0@,
                        self.wf(),
                        self.locations.contains_addr(addr),
                        forall|j: int| 0 <= j < i ==> (#[trigger] entries@[j]).0 != addr,
                    decreases n - i,
                {
                    if entries[i].0 == addr {
                        proof {
                            self.locations.lemma_addr_index(addr);
                            assert(self.locations.addrs()[i as int] == addr);
                            let idx = self.locations.addr_index(addr);
                            assert(idx == i);
                        }
                        return entries[i].1;
                    }
                    i += 1;
                }
                proof {
                    self.locations.lemma_addr_index(addr);
                    let idx = self.locations.addr_index(addr);
                    assert(self.locations.addrs()[idx] == addr);
                    assert(false);
                }
                vstd::pervasive::unreached()
            },
            LocationsStyle::SameValue { value, .. } => {
                proof {
                    self.locations.lemma_addr_index(addr);
                }
                *value
            },
            LocationsStyle::Range { start, end, values } => {
                proof {
                    self.locations.lemma_addr_index(addr);
                    let idx = self.locations.addr_index(addr);
                    lemma_slot_in_span(*start as int, *end as int, size as int, idx);
                    assert(addr == *start + idx * (size as int));
                    vstd::arithmetic::div_mod::lemma_div_multiples_vanish(idx, size as int);
                    assert((size as int) * idx == idx * (size as int)) by (nonlinear_arith);
                    assert(((addr - *start) as int) / (size as int) == idx);
                }
                let i = (addr - *start) / size;
                values[i]
            },
            LocationsStyle::ExcludedRange { start, end, excluded, values } => {
                let slots: usize = if *end <= *start {
                    0
                } else {
                    (*end - *start - 1) / size + 1
                };
                proof {
                    lemma_span_slots_fit(*start as int, *end as int, size as int);
                    lemma_kept_stride_props(*start as int, size as int, slots as int, excluded@);
                }
                let mut cnt: usize = 0;
                let mut j: usize = 0;
                while j < slots
                    invariant
                        j <= slots,
                        size == V::byte_size(),
                        1 <= size,
                        *start <= *end,
                        slots == slot_count(*start as int, *end as int, size as int),
                        (*start < *end ==> *start + (slot_count(
                            *start as int,
                            *end as int,
                            size as int,
                        ) - 1) * (size as int) + size <= usize::MAX),
                        self.wf(),
                        self.locations.contains_addr(addr),
                        self.locations is ExcludedRange,
                        *start == self.locations->ExcludedRange_start,
                        *end == self.locations->ExcludedRange_end,
                        excluded@ == self.locations->ExcludedRange_excluded@,
                        values@ == self.locations->ExcludedRange_values@,
                        cnt <= j,
                        cnt == kept_stride_addrs(
                            *start as int,
                            size as int,
                            j as int,
                            excluded@,
                        ).len(),
                        forall|m: int|
                            0 <= m < j ==> *start + #[trigger] (m * (size as int)) != addr,
                    decreases slots - j,
                {
                    proof {
                        lemma_slot_in_span(*start as int, *end as int, size as int, j as int);
                    }
                    let a = *start + j * size;
                    let excl = vec_contains_usize(excluded, a);
                    proof {
                        assert(kept_stride_addrs(
                            *start as int,
                            size as int,
                            j + 1,
                            excluded@,
                        ) == if excluded@.contains(a) {
                            kept_stride_addrs(*start as int, size as int, j as int, excluded@)
                        } else {
                            kept_stride_addrs(*start as int, size as int, j as int, excluded@).push(
                                a,
                            )
                        });
                    }
                    if a == addr {
                        proof {
                            lemma_span_slots_fit(*start as int, *end as int, size as int);
                            lemma_kept_stride_props(
                                *start as int,
                                size as int,
                                slots as int,
                                excluded@,
                            );
                            assert(self.locations.addrs().contains(addr));
                            assert(!excluded@.contains(a));
                            let kp = kept_stride_addrs(
                                *start as int,
                                size as int,
                                j + 1,
                                excluded@,
                            );
                            assert(kp[cnt as int] == addr);
                            lemma_kept_stride_prefix(
                                *start as int,
                                size as int,
                                j + 1,
                                slots as int,
                                excluded@,
                            );
                            assert(kp =~= self.locations.addrs().take(kp.len() as int));
                            assert(kp.len() == cnt + 1);
                            assert(cnt < self.locations.addrs().len());
                            assert(self.locations.addrs()[cnt as int] == addr);
                            self.locations.lemma_addr_index(addr);
                            let idx = self.locations.addr_index(addr);
                            assert(idx == cnt) by {
                                if idx < cnt {
                                    assert(self.locations.addrs()[idx]
                                        < self.locations.addrs()[cnt as int]);
                                }
                                if idx > cnt {
                                    assert(self.locations.addrs()[cnt as int]
                                        < self.locations.addrs()[idx]);
                                }
                            };
                            assert(cnt < self.locations.vals().len());
                        }
                        return values[cnt];
                    }
                    if !excl {
                        cnt += 1;
                    }
                    j += 1;
                }
                proof {
                    lemma_span_slots_fit(*start as int, *end as int, size as int);
                    lemma_kept_stride_props(*start as int, size as int, slots as int, excluded@);
                    assert(self.locations.addrs().contains(addr));
                    let jj = choose|jj: int|
                        0 <= jj < slots && addr == *start + #[trigger] (jj * (size as int))
                            && !excluded@.contains(addr);
                    assert(false);
                }
                vstd::pervasive::unreached()
            },
            LocationsStyle::Offsetted { base, offsets } => {
                let n = offsets.len();
                let mut i: usize = 0;
                while i < n
                    invariant
                        i <= n,
                        n == offsets@.len(),
                        self.wf(),
                        self.locations.contains_addr(addr),
                        self.locations is Offsetted,
                        *base == self.locations->Offsetted_base,
                        offsets@ == self.locations->Offsetted_offsets@,
                        size == V::byte_size(),
                        forall|j: int|
                            0 <= j < i ==> *base + (#[trigger] offsets@[j]).0 != addr,
                    decreases n - i,
                {
                    if *base + (offsets[i].0 as usize) == addr {
                        proof {
                            self.locations.lemma_addr_index(addr);
                            assert(self.locations.addrs()[i as int] == addr);
                            let idx = self.locations.addr_index(addr);
                            assert(idx == i);
                        }
                        return offsets[i].1;
                    }
                    i += 1;
                }
                proof {
                    self.locations.lemma_addr_index(addr);
                    let idx = self.locations.addr_index(addr);
                    assert(self.locations.addrs()[idx] == addr);
                    assert(false);
                }
                vstd::pervasive::unreached()
            },
            LocationsStyle::Masked { base, mask, values } => {
                let n = mask.len();
                proof {
                    lemma_mask_slots_fit(*base as int, size as int, n as int);
                    lemma_masked_addrs_props(*base as int, size as int, mask@);
                }
                let mut cnt: usize = 0;
                let mut j: usize = 0;
                while j < n
                    invariant
                        j <= n,
                        n == mask@.len(),
                        size == V::byte_size(),
                        1 <= size,
                        (n > 0 ==> *base + (n - 1) * size + size <= usize::MAX),
                        self.wf(),
                        self.locations.contains_addr(addr),
                        self.locations is Masked,
                        *base == self.locations->Masked_base,
                        mask@ == self.locations->Masked_mask@,
                        values@ == self.locations->Masked_values@,
                        cnt <= j,
                        cnt == masked_addrs(*base as int, size as int, mask@.take(j as int)).len(),
                        forall|m: int|
                            0 <= m < j ==> *base + #[trigger] (m * (size as int)) != addr,
                    decreases n - j,
                {
                    proof {
                        assert((j as int) * (size as int) <= (n - 1) * (size as int))
                            by (nonlinear_arith)
                            requires
                                0 <= j as int <= n - 1,
                                size >= 1,
                        ;
                        assert(mask@.take(j + 1).drop_last() =~= mask@.take(j as int));
                    }
                    let a = *base + j * size;
                    proof {
                        assert(masked_addrs(
                            *base as int,
                            size as int,
                            mask@.take(j + 1),
                        ) == if mask@[j as int] {
                            masked_addrs(*base as int, size as int, mask@.take(j as int)).push(a)
                        } else {
                            masked_addrs(*base as int, size as int, mask@.take(j as int))
                        });
                    }
                    if a == addr {
                        proof {
                            lemma_mask_slots_fit(*base as int, size as int, n as int);
                            lemma_masked_addrs_props(*base as int, size as int, mask@);
                            assert(self.locations.addrs().contains(addr));
                            let jj = choose|jj: int|
                                0 <= jj < mask@.len() && #[trigger] mask@[jj] && addr == *base + jj
                                    * (size as int);
                            assert(jj * (size as int) == (j as int) * (size as int));
                            assert(jj == j as int) by (nonlinear_arith)
                                requires
                                    jj * (size as int) == (j as int) * (size as int),
                                    size >= 1,
                            ;
                            assert(mask@[j as int]);
                            let mp = masked_addrs(*base as int, size as int, mask@.take(j + 1));
                            assert(mp[cnt as int] == addr);
                            lemma_masked_addrs_prefix(*base as int, size as int, mask@, j + 1);
                            assert(mp =~= self.locations.addrs().take(mp.len() as int));
                            assert(mp.len() == cnt + 1);
                            assert(cnt < self.locations.addrs().len());
                            assert(self.locations.addrs()[cnt as int] == addr);
                            self.locations.lemma_addr_index(addr);
                            let idx = self.locations.addr_index(addr);
                            assert(idx == cnt) by {
                                if idx < cnt {
                                    assert(self.locations.addrs()[idx]
                                        < self.locations.addrs()[cnt as int]);
                                }
                                if idx > cnt {
                                    assert(self.locations.addrs()[cnt as int]
                                        < self.locations.addrs()[idx]);
                                }
                            };
                            assert(cnt < self.locations.vals().len());
                        }
                        return values[cnt];
                    }
                    if mask[j] {
                        cnt += 1;
                    }
                    j += 1;
                }
                proof {
                    lemma_mask_slots_fit(*base as int, size as int, n as int);
                    lemma_masked_addrs_props(*base as int, size as int, mask@);
                    assert(self.locations.addrs().contains(addr));
                    let jj = choose|jj: int|
                        0 <= jj < mask@.len() && #[trigger] mask@[jj] && addr == *base + jj * (
                        size as int);
                    assert(false);
                }
                vstd::pervasive::unreached()
            },
        }
    }
}

/// Whether the entries hold a key equal to `a`.
fn keys_contain<V: Scannable>(entries: &Vec<(usize, V)>, a: usize) -> (r: bool)
    ensures
        r == has_key(entries@, a as int),
{
    let n = entries.len();
    let mut i: usize = 0;
    while i < n
        invariant
            i <= n,
            n == entries@.len(),
            forall|j: int| 0 <= j < i ==> (#[trigger] entries@[j]).0 != a,
        decreases n - i,
    {
        if entries[i].0 == a {
            return true;
        }
        i += 1;
    }
    false
}

/// Every encoding denotes one ascending sequence of `(address, value)` pairs:
/// the pair at position `i` is the `i`-th address with the `i`-th value, the
/// count of pairs is the count of addresses, and `addresses()` and
/// `into_locations()` both ensure exactly that sequence.
pub proof fn lemma_iteration_agreement<V: Scannable>(s: LocationsStyle<V>)
    requires
        s.wf(),
    ensures
        s.pairs().len() == s.addrs().len(),
        s.spec_len() == s.addrs().len(),
        forall|i: int|
            0 <= i < s.pairs().len() ==> #[trigger] s.pairs()[i] == (s.addrs()[i], s.vals()[i]),
        sorted_strict(s.addrs()),
{
}

/// Whether `a` is one of the first `n` stride addresses from `start`.
pub open spec fn slot_member(start: int, size: int, n: int, a: usize) -> bool {
    exists|j: int| 0 <= j < n && a == ((start + #[trigger] (j * size)) as usize)
}

/// Two excluded lists that agree on every stride address keep the same
/// stride addresses.
proof fn lemma_kept_same_excluded(start: int, size: int, n: int, e1: Seq<usize>, e2: Seq<usize>)
    requires
        forall|j: int|
            0 <= j < n ==> (e1.contains(((start + #[trigger] (j * size)) as usize)) <==> e2.contains(
                ((start + j * size) as usize),
            )),
    ensures
        kept_stride_addrs(start, size, n, e1) == kept_stride_addrs(start, size, n, e2),
    decreases n,
{
    if n > 0 {
        lemma_kept_same_excluded(start, size, n - 1, e1, e2);
    }
}

/// Counting the survivors of an exclusion: when the excluded addresses are
/// distinct stride addresses, every slot is either kept or excluded, so the
/// kept count and the excluded count partition the slots.
proof fn lemma_kept_len_partition(start: int, size: int, n: int, excluded: Seq<usize>)
    requires
        1 <= size,
        0 <= start,
        n >= 0,
        start + n * size <= usize::MAX + 1,
        sorted_strict(excluded),
        forall|i: int| 0 <= i < excluded.len() ==> slot_member(start, size, n, #[trigger] excluded[i]),
    ensures
        kept_stride_addrs(start, size, n, excluded).len() + excluded.len() == n,
    decreases n,
{
    // Slot addresses grow strictly with the slot index and stay exact.
    assert forall|j: int| 0 <= j < n implies ((start + #[trigger] (j * size)) as usize) as int
        == start + j * size by {
        assert(j * size + size <= n * size) by (nonlinear_arith)
            requires
                0 <= j,
                j < n,
                size >= 1,
        ;
        assert(j * size >= 0) by (nonlinear_arith)
            requires
                j >= 0,
                size >= 1,
        ;
    }
    if n == 0 {
        if excluded.len() > 0 {
            assert(slot_member(start, size, n, excluded[0]));
            let j = choose|j: int|
                0 <= j < n && excluded[0] == ((start + #[trigger] (j * size)) as usize);
            assert(false);
        }
    } else {
        let aa = (start + (n - 1) * size) as usize;
        // An excluded element at a slot below `n - 1` lies strictly below `aa`.
        assert forall|i: int| 0 <= i < excluded.len() implies excluded[i] <= aa by {
            assert(slot_member(start, size, n, excluded[i]));
            let j = choose|j: int|
                0 <= j < n && excluded[i] == ((start + #[trigger] (j * size)) as usize);
            assert(j * size <= (n - 1) * size) by (nonlinear_arith)
                requires
                    0 <= j <= n - 1,
                    size >= 1,
            ;
        }
        assert((n - 1) * size + size == n * size) by (nonlinear_arith);
        if excluded.contains(aa) {
            // `aa` is the maximum, hence the last, excluded element.
            let ia = choose|ia: int| 0 <= ia < excluded.len() && excluded[ia] == aa;
            assert(ia == excluded.len() - 1) by {
                if ia < excluded.len() - 1 {
                    assert(excluded[ia] < excluded[excluded.len() - 1]);
                    assert(excluded[excluded.len() - 1] <= aa);
                }
            }
            let shorter = excluded.drop_last();
            assert forall|i: int| 0 <= i < shorter.len() implies slot_member(
                start,
                size,
                n - 1,
                #[trigger] shorter[i],
            ) by {
                assert(shorter[i] == excluded[i]);
                assert(slot_member(start, size, n, excluded[i]));
                let j = choose|j: int|
                    0 <= j < n && excluded[i] == ((start + #[trigger] (j * size)) as usize);
                assert(excluded[i] < excluded[excluded.len() - 1]);
                assert(j != n - 1);
                assert(0 <= j < n - 1 && shorter[i] == ((start + j * size) as usize));
            }
            assert(sorted_strict(shorter)) by {
                assert(forall|x: int, y: int|
                    0 <= x < y < shorter.len() ==> shorter[x] == excluded[x] && shorter[y]
                        == excluded[y]);
            }
            assert(start + (n - 1) * size <= usize::MAX + 1);
            lemma_kept_len_partition(start, size, n - 1, shorter);
            // Below the last slot the two excluded lists agree.
            assert forall|j: int|
                0 <= j < n - 1 implies (excluded.contains(
                ((start + #[trigger] (j * size)) as usize),
            ) <==> shorter.contains(((start + j * size) as usize))) by {
                lemma_drop_last_contains(excluded, ((start + j * size) as usize));
                assert(j * size < (n - 1) * size) by (nonlinear_arith)
                    requires
                        0 <= j < n - 1,
                        size >= 1,
                ;
            }
            lemma_kept_same_excluded(start, size, n - 1, excluded, shorter);
            assert(kept_stride_addrs(start, size, n, excluded) == kept_stride_addrs(
                start,
                size,
                n - 1,
                shorter,
            ));
        } else {
            assert forall|i: int| 0 <= i < excluded.len() implies slot_member(
                start,
                size,
                n - 1,
                #[trigger] excluded[i],
            ) by {
                assert(slot_member(start, size, n, excluded[i]));
                let j = choose|j: int|
                    0 <= j < n && excluded[i] == ((start + #[trigger] (j * size)) as usize);
                assert(j != n - 1);
                assert(0 <= j < n - 1 && excluded[i] == ((start + j * size) as usize));
            }
            assert(start + (n - 1) * size <= usize::MAX + 1);
            lemma_kept_len_partition(start, size, n - 1, excluded);
            assert(kept_stride_addrs(start, size, n, excluded) == kept_stride_addrs(
                start,
                size,
                n - 1,
                excluded,
            ).push(aa));
        }
    }
}

/// Compaction preserves semantics: `try_compact` ensures that the sequence of
/// `(address, value)` pairs is unchanged, so in particular the multiset of
/// pairs a store denotes is unchanged.
pub proof fn lemma_same_pairs_same_multiset<V: Scannable>(
    a: LocationsStyle<V>,
    b: LocationsStyle<V>,
)
    requires
        a.pairs() == b.pairs(),
    ensures
        a.pairs().to_multiset() == b.pairs().to_multiset(),
{
}

/// Whether the vector holds the address `a`.
fn vec_contains_usize(v: &Vec<usize>, a: usize) -> (r: bool)
    ensures
        r == v@.contains(a),
{
    let n = v.len();
    let mut i: usize = 0;
    while i < n
        invariant
            i <= n,
            n == v@.len(),
            forall|j: int| 0 <= j < i ==> v@[j] != a,
        decreases n - i,
    {
        if v[i] == a {
            return true;
        }
        i += 1;
    }
    false
}

} // verus!
