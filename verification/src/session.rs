use crate::region::{Location, Region, RegionInfo};
use crate::scannable::Scannable;
use vstd::prelude::*;

verus! {

/// Protection bits under which a region is both readable and writable:
/// execute-readwrite, execute-writecopy, readwrite, writecopy. Only such
/// regions are worth scanning; read-only, reserved and guarded regions are
/// discarded before a first scan.
pub const WRITABLE_PROTECTION: u32 = 0x40 | 0x80 | 0x04 | 0x08;

/// Whether a region's protection admits both reading and writing.
pub fn is_writable_region(info: &RegionInfo) -> (r: bool)
    ensures
        r == (info.protect & WRITABLE_PROTECTION != 0),
{
    info.protect & WRITABLE_PROTECTION != 0
}

/// A process as shown to the user: its identifier and the base name of its
/// first module.
#[derive(Clone, Debug, PartialEq, Eq)]
pub struct ProcessView {
    pub pid: u32,
    pub name: String,
}

impl ProcessView {
    /// One line naming the process.
    ///
    /// Relies on the standard `format!` macro to concatenate the name and the
    /// decimal process identifier.
    #[verifier::external_body]
    pub fn label(&self) -> String {
        format!("{} (pid={})", self.name, self.pid)
    }
}

/// The `(address, value)` pairs of a list of regions, in region order.
pub open spec fn regions_pairs<V: Scannable>(regions: Seq<Region<V>>) -> Seq<(usize, V)>
    decreases regions.len(),
{
    if regions.len() == 0 {
        Seq::empty()
    } else {
        regions_pairs(regions.drop_last()) + regions.last().locations.pairs()
    }
}

/// The window `[offset, offset + limit)` of a sequence, clipped to its length.
pub open spec fn window_of<T>(s: Seq<T>, offset: int, limit: int) -> Seq<T> {
    if offset >= s.len() {
        Seq::empty()
    } else if offset + limit >= s.len() {
        s.subrange(offset, s.len() as int)
    } else {
        s.subrange(offset, offset + limit)
    }
}

/// How a window grows when one element is appended to the sequence under it:
/// the element enters the window exactly when the window reaches the element's
/// position and is not full yet.
pub proof fn lemma_window_push<T>(s: Seq<T>, x: T, o: int, l: int)
    requires
        0 <= o,
        0 <= l,
    ensures
        window_of(s.push(x), o, l) == if s.len() >= o && window_of(s, o, l).len() < l {
            window_of(s, o, l).push(x)
        } else {
            window_of(s, o, l)
        },
{
    let sp = s.push(x);
    if s.len() < o {
        assert(window_of(sp, o, l) =~= window_of(s, o, l));
    } else if s.len() - o < l {
        assert(window_of(sp, o, l) =~= window_of(s, o, l).push(x));
    } else {
        assert(window_of(sp, o, l) =~= window_of(s, o, l));
    }
}

/// The pairs of a prefix of the region list are a prefix of all the pairs.
proof fn lemma_regions_pairs_take<V: Scannable>(regions: Seq<Region<V>>, k: int)
    requires
        0 <= k <= regions.len(),
    ensures
        regions_pairs(regions.take(k)).len() <= regions_pairs(regions).len(),
    decreases regions.len() - k,
{
    if k == regions.len() {
        assert(regions.take(k) =~= regions);
    } else {
        lemma_regions_pairs_take(regions, k + 1);
        assert(regions.take(k + 1).drop_last() =~= regions.take(k));
        assert(regions_pairs(regions.take(k + 1)) == regions_pairs(regions.take(k))
            + regions[k].locations.pairs());
    }
}

/// The flattened scan result, paginated: the total number of surviving
/// locations over all regions, and the locations in the window
/// `[offset, offset + limit)` of the flattened `(address, value)` sequence.
pub fn locations_window<V: Scannable>(regions: &Vec<Region<V>>, limit: usize, offset: usize) -> (r:
    (usize, Vec<Location<V>>))
    requires
        forall|i: int| 0 <= i < regions@.len() ==> (#[trigger] regions@[i]).wf(),
        regions_pairs(regions@).len() <= usize::MAX,
    ensures
        r.0 == regions_pairs(regions@).len(),
        r.1@.len() == window_of(regions_pairs(regions@), offset as int, limit as int).len(),
        forall|i: int|
            0 <= i < r.1@.len() ==> (#[trigger] r.1@[i]).address == window_of(
                regions_pairs(regions@),
                offset as int,
                limit as int,
            )[i].0 && r.1@[i].value == window_of(
                regions_pairs(regions@),
                offset as int,
                limit as int,
            )[i].1,
{
    let n = regions.len();
    let mut total: usize = 0;
    let mut out: Vec<Location<V>> = Vec::new();
    let mut ri: usize = 0;
    while ri < n
        invariant
            ri <= n,
            n == regions@.len(),
            forall|i: int| 0 <= i < regions@.len() ==> (#[trigger] regions@[i]).wf(),
            regions_pairs(regions@).len() <= usize::MAX,
            total == regions_pairs(regions@.take(ri as int)).len(),
            out@.len() == window_of(
                regions_pairs(regions@.take(ri as int)),
                offset as int,
                limit as int,
            ).len(),
            forall|i: int|
                0 <= i < out@.len() ==> (#[trigger] out@[i]).address == window_of(
                    regions_pairs(regions@.take(ri as int)),
                    offset as int,
                    limit as int,
                )[i].0 && out@[i].value == window_of(
                    regions_pairs(regions@.take(ri as int)),
                    offset as int,
                    limit as int,
                )[i].1,
        decreases n - ri,
    {
        let locs = regions[ri].locations.clone();
        proof {
            locs.lemma_equiv_same_model(regions@[ri as int].locations);
        }
        let flat = locs.into_locations();
        let ghost pre = regions_pairs(regions@.take(ri as int));
        let ghost fpairs = regions@[ri as int].locations.pairs();
        proof {
            assert(flat@.len() == fpairs.len());
            assert(forall|i: int|
                0 <= i < flat@.len() ==> (#[trigger] flat@[i]).address == fpairs[i].0
                    && flat@[i].value == fpairs[i].1);
            lemma_regions_pairs_take(regions@, ri + 1);
            assert(regions@.take(ri + 1).drop_last() =~= regions@.take(ri as int));
            assert(regions_pairs(regions@.take(ri + 1)) == pre + fpairs);
            assert((pre + fpairs).len() <= regions_pairs(regions@).len());
        }
        let flen = flat.len();
        let mut j: usize = 0;
        while j < flen
            invariant
                j <= flen,
                flen == flat@.len(),
                flat@.len() == fpairs.len(),
                forall|i: int|
                    0 <= i < flat@.len() ==> (#[trigger] flat@[i]).address == fpairs[i].0
                        && flat@[i].value == fpairs[i].1,
                pre.len() + fpairs.len() <= usize::MAX,
                total == pre.len(),
                out@.len() == window_of(pre + fpairs.take(j as int), offset as int, limit as int).len(),
                forall|i: int|
                    0 <= i < out@.len() ==> (#[trigger] out@[i]).address == window_of(
                        pre + fpairs.take(j as int),
                        offset as int,
                        limit as int,
                    )[i].0 && out@[i].value == window_of(
                        pre + fpairs.take(j as int),
                        offset as int,
                        limit as int,
                    )[i].1,
                out@.len() <= limit,
            decreases flen - j,
        {
            let p = total + j;
            let within = p >= offset && out.len() < limit;
            proof {
                let cur = pre + fpairs.take(j as int);
                assert(cur.len() == total + j);
                lemma_window_push(cur, fpairs[j as int], offset as int, limit as int);
                assert(pre + fpairs.take(j + 1) =~= cur.push(fpairs[j as int]));
            }
            if within {
                out.push(flat[j]);
            }
            j += 1;
        }
        proof {
            assert(fpairs.take(flen as int) =~= fpairs);
            assert(regions_pairs(regions@.take(ri + 1)) == pre + fpairs);
        }
        total = total + flen;
        ri += 1;
    }
    proof {
        assert(regions@.take(n as int) =~= regions@);
    }
    (total, out)
}

} // verus!
