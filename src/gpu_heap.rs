use vstd::prelude::*;
use crate::candidate::ScoredCandidate;
use crate::heap::{is_top_sorted, min_nat, select_top};

verus! {

/// Bytes one candidate takes on the device: a `u32` offset and a 32-bit score.
pub const CANDIDATE_BYTES: usize = 8;

/// Bytes the parameter block takes on the device: two `u32`.
pub const PARAMS_BYTES: usize = 8;

/// The read-only block that every group of a dispatch shares.
#[derive(Clone, Copy, Debug, PartialEq, Eq)]
pub struct NearestHeapParams {
    pub capacity: u32,
    pub ef: u32,
}

/// Why an accelerator selector cannot be set up or run.
#[derive(Clone, Copy, Debug, PartialEq, Eq)]
pub enum GpuHeapError {
    /// The device reports a lane width of zero.
    ZeroLaneWidth,
    /// The thread count is not a multiple of the device's lane width.
    LaneMismatch,
    /// `ef` is zero.
    ZeroEf,
    /// The rounded capacity does not fit the parameter block, or the result
    /// region does not fit in memory.
    TooLarge,
    /// A dispatch holds more groups than the selector was sized for.
    TooManyGroups,
}

/// `ef` rounded up to the next multiple of the lane width.
pub open spec fn rounded_capacity(ef: nat, lane_width: nat) -> nat
    recommends
        lane_width > 0,
{
    if ef % lane_width == 0 {
        ef
    } else {
        (ef / lane_width + 1) * lane_width
    }
}

/// The rounded capacity is the smallest multiple of the lane width that is
/// at least `ef`.
pub proof fn lemma_rounded_capacity_smallest(ef: nat, lane_width: nat)
    requires
        lane_width > 0,
    ensures
        rounded_capacity(ef, lane_width) % lane_width == 0,
        rounded_capacity(ef, lane_width) >= ef,
        rounded_capacity(ef, lane_width) < ef + lane_width,
        forall|m: nat| #[trigger] (m % lane_width) == 0 && m >= ef ==> rounded_capacity(ef, lane_width) <= m,
{
    let l = lane_width as int;
    let w = ef as int / l;
    let r0 = ef as int % l;
    vstd::arithmetic::div_mod::lemma_fundamental_div_mod(ef as int, l);
    vstd::arithmetic::div_mod::lemma_mod_pos_bound(ef as int, l);
    if r0 != 0 {
        let rc = (w + 1) * l;
        assert(rc == rounded_capacity(ef, lane_width));
        vstd::arithmetic::div_mod::lemma_mod_multiples_basic(w + 1, l);
        assert(rc == l * w + l) by (nonlinear_arith)
            requires
                rc == (w + 1) * l,
        ;
        assert forall|m: nat| #[trigger] (m % lane_width) == 0 && m >= ef implies rc <= m by {
            let k = m as int / l;
            vstd::arithmetic::div_mod::lemma_fundamental_div_mod(m as int, l);
            if k <= w {
                assert(l * k <= l * w) by (nonlinear_arith)
                    requires
                        k <= w,
                        l > 0,
                ;
            } else {
                assert(l * k >= l * (w + 1)) by (nonlinear_arith)
                    requires
                        k >= w + 1,
                        l > 0,
                ;
                assert(l * (w + 1) == rc) by (nonlinear_arith)
                    requires
                        rc == (w + 1) * l,
                ;
            }
        }
    }
}

/// `ef` rounded up to the next multiple of the lane width, or `None` where
/// that does not fit in a `usize`.
pub fn round_up_to_lanes(ef: usize, lane_width: usize) -> (r: Option<usize>)
    requires
        lane_width > 0,
    ensures
        rounded_capacity(ef as nat, lane_width as nat) <= usize::MAX ==> r == Some(
            rounded_capacity(ef as nat, lane_width as nat) as usize,
        ),
        rounded_capacity(ef as nat, lane_width as nat) > usize::MAX ==> r is None,
{
    proof {
        vstd::arithmetic::div_mod::lemma_fundamental_div_mod(ef as int, lane_width as int);
        vstd::arithmetic::div_mod::lemma_mod_pos_bound(ef as int, lane_width as int);
    }
    if ef % lane_width == 0 {
        Some(ef)
    } else {
        assert(ef / lane_width < ef) by (nonlinear_arith)
            requires
                lane_width * (ef / lane_width) + ef % lane_width == ef,
                ef % lane_width > 0,
                lane_width >= 2,
                ef / lane_width >= 0,
        ;
        (ef / lane_width + 1).checked_mul(lane_width)
    }
}

/// The layout of the bounded candidate selector on a lane-parallel device:
/// each group owns `capacity` result slots, `capacity` being `ef` rounded up
/// to the lane width so that every lane handles the same share.
pub struct GpuNearestHeap {
    pub ef: usize,
    pub capacity: usize,
    pub lane_width: usize,
    pub threads_count: usize,
    /// Groups per dispatch: one per `lane_width` threads.
    pub groups_count: usize,
    /// What the parameter block holds.
    pub params: NearestHeapParams,
    /// Bytes of the result region: `capacity` slots for each group.
    pub nearest_buffer_size: usize,
    /// Bytes of the parameter block.
    pub params_buffer_size: usize,
}

impl GpuNearestHeap {
    /// The result region's size in bytes for a configuration.
    pub open spec fn region_bytes(ef: nat, lane_width: nat, threads_count: nat) -> int {
        rounded_capacity(ef, lane_width) * (threads_count / lane_width) * CANDIDATE_BYTES
    }

    /// Whether a configuration is too large for the parameter block or for
    /// memory.
    pub open spec fn too_large(ef: nat, lane_width: nat, threads_count: nat) -> bool {
        rounded_capacity(ef, lane_width) > u32::MAX
            || Self::region_bytes(ef, lane_width, threads_count) > usize::MAX
    }

    pub open spec fn wf(&self) -> bool {
        &&& self.lane_width > 0
        &&& self.ef > 0
        &&& self.threads_count % self.lane_width == 0
        &&& self.capacity == rounded_capacity(self.ef as nat, self.lane_width as nat)
        &&& self.groups_count == self.threads_count / self.lane_width
        &&& self.params == (NearestHeapParams { capacity: self.capacity as u32, ef: self.ef as u32 })
        &&& self.capacity <= u32::MAX
        &&& self.nearest_buffer_size == self.capacity * self.groups_count * CANDIDATE_BYTES
        &&& self.params_buffer_size == PARAMS_BYTES
    }

    /// Sets up the selector for a device of the given lane width, run with
    /// `threads_count` threads, for top-`ef` selection. The configuration is
    /// checked before anything is sized.
    pub fn new(lane_width: usize, threads_count: usize, ef: usize) -> (r: Result<GpuNearestHeap, GpuHeapError>)
        ensures
            lane_width == 0 <==> r == Err::<GpuNearestHeap, GpuHeapError>(GpuHeapError::ZeroLaneWidth),
            lane_width > 0 && threads_count % lane_width != 0 <==> r == Err::<GpuNearestHeap, GpuHeapError>(
                GpuHeapError::LaneMismatch,
            ),
            lane_width > 0 && threads_count % lane_width == 0 && ef == 0 <==> r == Err::<
                GpuNearestHeap,
                GpuHeapError,
            >(GpuHeapError::ZeroEf),
            lane_width > 0 && threads_count % lane_width == 0 && ef > 0 && Self::too_large(
                ef as nat,
                lane_width as nat,
                threads_count as nat,
            ) <==> r == Err::<GpuNearestHeap, GpuHeapError>(GpuHeapError::TooLarge),
            lane_width > 0 && threads_count % lane_width == 0 && ef > 0 && !Self::too_large(
                ef as nat,
                lane_width as nat,
                threads_count as nat,
            ) ==> r is Ok,
            r is Ok ==> {
                let h = r->Ok_0;
                &&& h.wf()
                &&& h.ef == ef
                &&& h.lane_width == lane_width
                &&& h.threads_count == threads_count
                &&& h.capacity % lane_width == 0
                &&& h.capacity >= ef
                &&& h.capacity < ef + lane_width
            },
            r != Err::<GpuNearestHeap, GpuHeapError>(GpuHeapError::TooManyGroups),
    {
        if lane_width == 0 {
            return Err(GpuHeapError::ZeroLaneWidth);
        }
        if threads_count % lane_width != 0 {
            return Err(GpuHeapError::LaneMismatch);
        }
        if ef == 0 {
            return Err(GpuHeapError::ZeroEf);
        }
        proof {
            lemma_rounded_capacity_smallest(ef as nat, lane_width as nat);
        }
        let capacity = match round_up_to_lanes(ef, lane_width) {
            Some(c) => c,
            None => {
                return Err(GpuHeapError::TooLarge);
            },
        };
        if capacity > 0xffff_ffffusize {
            return Err(GpuHeapError::TooLarge);
        }
        let groups_count = threads_count / lane_width;
        let elements = match capacity.checked_mul(groups_count) {
            Some(e) => e,
            None => {
                proof {
                    assert(capacity * groups_count * CANDIDATE_BYTES >= capacity * groups_count)
                        by (nonlinear_arith)
                        requires
                            capacity * groups_count >= 0,
                    ;
                }
                return Err(GpuHeapError::TooLarge);
            },
        };
        let nearest_buffer_size = match elements.checked_mul(CANDIDATE_BYTES) {
            Some(b) => b,
            None => {
                return Err(GpuHeapError::TooLarge);
            },
        };
        Ok(GpuNearestHeap {
            ef,
            capacity,
            lane_width,
            threads_count,
            groups_count,
            params: NearestHeapParams { capacity: capacity as u32, ef: ef as u32 },
            nearest_buffer_size,
            params_buffer_size: PARAMS_BYTES,
        })
    }

    /// Whether the fields still describe one consistent layout, as `new`
    /// builds it.
    pub fn is_well_formed(&self) -> (r: bool)
        ensures
            r == self.wf(),
    {
        if self.lane_width == 0 || self.ef == 0 || self.threads_count % self.lane_width != 0 {
            return false;
        }
        let capacity = match round_up_to_lanes(self.ef, self.lane_width) {
            Some(c) => c,
            None => {
                return false;
            },
        };
        if self.capacity != capacity || capacity > 0xffff_ffffusize {
            return false;
        }
        proof {
            lemma_rounded_capacity_smallest(self.ef as nat, self.lane_width as nat);
        }
        if self.groups_count != self.threads_count / self.lane_width {
            return false;
        }
        if self.params.capacity as usize != capacity || self.params.ef as usize != self.ef {
            return false;
        }
        if self.params_buffer_size != PARAMS_BYTES {
            return false;
        }
        match capacity.checked_mul(self.groups_count) {
            Some(e) => match e.checked_mul(CANDIDATE_BYTES) {
                Some(b) => b == self.nearest_buffer_size,
                None => false,
            },
            None => {
                proof {
                    assert(capacity * self.groups_count * CANDIDATE_BYTES >= capacity * self.groups_count)
                        by (nonlinear_arith)
                        requires
                            capacity * self.groups_count >= 0,
                    ;
                }
                false
            },
        }
    }
}

impl NearestHeapParams {
    /// The block as the device reads it: `capacity`, then `ef`, each as four
    /// little-endian bytes.
    pub fn to_bytes(&self) -> (r: Vec<u8>)
        ensures
            r@ == seq![
                (self.capacity & 0xff) as u8,
                ((self.capacity >> 8u32) & 0xff) as u8,
                ((self.capacity >> 16u32) & 0xff) as u8,
                ((self.capacity >> 24u32) & 0xff) as u8,
                (self.ef & 0xff) as u8,
                ((self.ef >> 8u32) & 0xff) as u8,
                ((self.ef >> 16u32) & 0xff) as u8,
                ((self.ef >> 24u32) & 0xff) as u8,
            ],
    {
        let c = self.capacity;
        let e = self.ef;
        let r = vec![
            (c & 0xff) as u8,
            ((c >> 8u32) & 0xff) as u8,
            ((c >> 16u32) & 0xff) as u8,
            ((c >> 24u32) & 0xff) as u8,
            (e & 0xff) as u8,
            ((e >> 8u32) & 0xff) as u8,
            ((e >> 16u32) & 0xff) as u8,
            ((e >> 24u32) & 0xff) as u8,
        ];
        assert(r@ =~= seq![
            (c & 0xff) as u8,
            ((c >> 8u32) & 0xff) as u8,
            ((c >> 16u32) & 0xff) as u8,
            ((c >> 24u32) & 0xff) as u8,
            (e & 0xff) as u8,
            ((e >> 8u32) & 0xff) as u8,
            ((e >> 16u32) & 0xff) as u8,
            ((e >> 24u32) & 0xff) as u8,
        ]);
        r
    }
}

impl GpuNearestHeap {
    /// Number of result slots in the region: `capacity` per group.
    pub open spec fn region_slots(&self) -> nat {
        (self.capacity * self.groups_count) as nat
    }

    /// The first result slot of a group; its slots run to the next group's
    /// first, so no two groups share one.
    pub fn group_start(&self, group: usize) -> (r: usize)
        requires
            self.wf(),
            group < self.groups_count,
        ensures
            r == group * self.capacity,
            r + self.capacity <= self.region_slots(),
            self.ef <= self.capacity,
            self.region_slots() <= usize::MAX,
    {
        proof {
            let x = self.capacity * self.groups_count;
            assert(x <= x * CANDIDATE_BYTES) by (nonlinear_arith)
                requires
                    x >= 0,
            ;
            lemma_rounded_capacity_smallest(self.ef as nat, self.lane_width as nat);
            lemma_stride_fits(group as int, self.groups_count as int, self.capacity as int);
        }
        group * self.capacity
    }

    /// Reads one group's results out of a result region: the first
    /// `min(count, ef)` slots of the group's stride.
    pub fn read_group(&self, region: &Vec<ScoredCandidate>, group: usize, count: usize) -> (r: Vec<ScoredCandidate>)
        requires
            self.wf(),
            group < self.groups_count,
            region@.len() == self.region_slots(),
        ensures
            r@ == region@.subrange(
                group * self.capacity,
                group * self.capacity + min_nat(count as nat, self.ef as nat),
            ),
    {
        let start = self.group_start(group);
        let n = if count < self.ef { count } else { self.ef };
        let mut out: Vec<ScoredCandidate> = Vec::new();
        let mut i: usize = 0;
        while i < n
            invariant
                self.wf(),
                start == group * self.capacity,
                start + self.capacity <= region@.len(),
                region@.len() <= usize::MAX,
                n <= self.ef <= self.capacity,
                i <= n,
                out@ == region@.subrange(start as int, start + i),
            decreases n - i,
        {
            out.push(region[start + i]);
            i += 1;
        }
        out
    }

    /// Runs one bounded selection per group on the host, through the same
    /// result region that the device fills, and reads each group back. Every
    /// group's result is the best `ef` of its stream, best first. A batch with
    /// more groups than the selector was sized for fails as a whole.
    pub fn dispatch(&self, streams: &Vec<Vec<ScoredCandidate>>) -> (r: Result<Vec<Vec<ScoredCandidate>>, GpuHeapError>)
        requires
            self.wf(),
        ensures
            streams.len() > self.groups_count <==> r == Err::<Vec<Vec<ScoredCandidate>>, GpuHeapError>(
                GpuHeapError::TooManyGroups,
            ),
            streams.len() <= self.groups_count ==> r is Ok,
            r is Ok ==> {
                let out = r->Ok_0;
                &&& out.len() == streams.len()
                &&& forall|g: int|
                    0 <= g < out.len() ==> is_top_sorted(
                        #[trigger] out[g]@,
                        streams[g]@.to_set(),
                        self.ef as nat,
                    ) && out[g]@.len() == min_nat(self.ef as nat, streams[g]@.to_set().len())
            },
    {
        if streams.len() > self.groups_count {
            return Err(GpuHeapError::TooManyGroups);
        }
        let groups = streams.len();
        let slots = self.capacity * self.groups_count;
        let mut region: Vec<ScoredCandidate> = Vec::new();
        let mut k: usize = 0;
        while k < slots
            invariant
                k <= slots,
                region@.len() == k,
            decreases slots - k,
        {
            region.push(ScoredCandidate { offset: 0, score: i32::MIN });
            k += 1;
        }
        let mut counts: Vec<usize> = Vec::new();
        let ghost mut tops: Seq<Seq<ScoredCandidate>> = Seq::empty();
        let mut g: usize = 0;
        while g < groups
            invariant
                self.wf(),
                groups == streams.len(),
                groups <= self.groups_count,
                slots == self.region_slots(),
                region@.len() == slots,
                g <= groups,
                tops.len() == g,
                counts@.len() == g,
                forall|h: int| 0 <= h < g ==> (#[trigger] tops[h]).len() == counts@[h],
                forall|h: int|
                    0 <= h < g ==> is_top_sorted(#[trigger] tops[h], streams[h]@.to_set(), self.ef as nat)
                        && tops[h].len() == min_nat(self.ef as nat, streams[h]@.to_set().len()),
                forall|h: int|
                    0 <= h < g ==> region@.subrange(h * self.capacity, h * self.capacity + tops[h].len())
                        == #[trigger] tops[h],
            decreases groups - g,
        {
            let top = select_top(self.ef, &streams[g]);
            let start = self.group_start(g);
            let ghost before = region@;
            let mut i: usize = 0;
            while i < top.len()
                invariant
                    self.wf(),
                    start == g * self.capacity,
                    start + self.capacity <= region@.len(),
                    region@.len() <= usize::MAX,
                    top@.len() <= self.ef <= self.capacity,
                    region@.len() == before.len(),
                    i <= top@.len(),
                    forall|j: int| 0 <= j < i ==> region@[start + j] == top@[j],
                    forall|j: int|
                        0 <= j < region@.len() && !(start <= j < start + i) ==> region@[j] == before[j],
                decreases top.len() - i,
            {
                region.set(start + i, top[i]);
                i += 1;
            }
            proof {
                assert forall|h: int| 0 <= h < g implies region@.subrange(
                    h * self.capacity,
                    h * self.capacity + tops[h].len(),
                ) == #[trigger] tops[h] by {
                    lemma_stride_fits(h, g as int, self.capacity as int);
                    assert(region@.subrange(h * self.capacity, h * self.capacity + tops[h].len())
                        =~= before.subrange(h * self.capacity, h * self.capacity + tops[h].len()));
                }
                assert(region@.subrange(start as int, start + top@.len()) =~= top@);
                tops = tops.push(top@);
            }
            counts.push(top.len());
            g += 1;
        }
        let mut out: Vec<Vec<ScoredCandidate>> = Vec::new();
        let mut g: usize = 0;
        while g < groups
            invariant
                self.wf(),
                groups == streams.len(),
                groups <= self.groups_count,
                region@.len() == self.region_slots(),
                tops.len() == groups,
                counts@.len() == groups,
                forall|h: int| 0 <= h < groups ==> (#[trigger] tops[h]).len() == counts@[h],
                forall|h: int|
                    0 <= h < groups ==> is_top_sorted(#[trigger] tops[h], streams[h]@.to_set(), self.ef as nat)
                        && tops[h].len() == min_nat(self.ef as nat, streams[h]@.to_set().len()),
                forall|h: int|
                    0 <= h < groups ==> region@.subrange(h * self.capacity, h * self.capacity + tops[h].len())
                        == #[trigger] tops[h],
                g <= groups,
                out.len() == g,
                forall|h: int| 0 <= h < g ==> (#[trigger] out[h])@ == tops[h],
            decreases groups - g,
        {
            let got = self.read_group(&region, g, counts[g]);
            proof {
                assert(tops[g as int].len() <= self.ef);
            }
            out.push(got);
            g += 1;
        }
        Ok(out)
    }
}

proof fn lemma_stride_fits(group: int, groups: int, capacity: int)
    requires
        0 <= group < groups,
        capacity >= 0,
    ensures
        group * capacity + capacity <= groups * capacity,
        group * capacity + capacity <= capacity * groups,
{
    assert(groups * capacity == capacity * groups) by (nonlinear_arith);
    assert((group + 1) * capacity <= groups * capacity) by (nonlinear_arith)
        requires
            group + 1 <= groups,
            capacity >= 0,
    ;
    assert((group + 1) * capacity == group * capacity + capacity) by (nonlinear_arith);
}

} // verus!
