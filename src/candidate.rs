use vstd::prelude::*;

verus! {

/// A scored point of the graph.
///
/// `score` is an order key: larger means nearer. A floating-point score is
/// brought into this form by an order-preserving map before it reaches the
/// library.
#[derive(Clone, Copy, Debug, PartialEq, Eq)]
pub struct ScoredCandidate {
    pub offset: u32,
    pub score: i32,
}

/// The selection order: higher score first, and on equal scores the lower
/// offset first. `ranks_above(a, b)` holds when `a` comes strictly before `b`.
pub open spec fn ranks_above(a: ScoredCandidate, b: ScoredCandidate) -> bool {
    a.score > b.score || (a.score == b.score && a.offset < b.offset)
}

/// Two different candidates are always ordered one way or the other.
pub proof fn lemma_ranks_total(a: ScoredCandidate, b: ScoredCandidate)
    ensures
        a == b || ranks_above(a, b) || ranks_above(b, a),
        !(ranks_above(a, b) && ranks_above(b, a)),
        !ranks_above(a, a),
{
}

/// Width of the offset field inside a key.
pub const OFFSET_SPAN: u64 = 0x1_0000_0000;

/// The candidate as one `u64`: the shifted score in the high half, the
/// complemented offset in the low half, so that a larger key ranks above.
pub open spec fn key_of(c: ScoredCandidate) -> u64 {
    ((c.score + 0x8000_0000) * 0x1_0000_0000 + (0xffff_ffff - c.offset)) as u64
}

/// The candidate a key stands for.
pub open spec fn cand_of(k: u64) -> ScoredCandidate {
    ScoredCandidate {
        offset: (0xffff_ffff - k as int % 0x1_0000_0000) as u32,
        score: (k as int / 0x1_0000_0000 - 0x8000_0000) as i32,
    }
}

proof fn lemma_key_parts(c: ScoredCandidate)
    ensures
        0 <= (c.score + 0x8000_0000) * 0x1_0000_0000 + (0xffff_ffff - c.offset) <= u64::MAX,
        key_of(c) as int == (c.score + 0x8000_0000) * 0x1_0000_0000 + (0xffff_ffff - c.offset),
        key_of(c) as int / 0x1_0000_0000 == c.score + 0x8000_0000,
        key_of(c) as int % 0x1_0000_0000 == 0xffff_ffff - c.offset,
{
    let hi = c.score + 0x8000_0000;
    assert(0 <= hi * 0x1_0000_0000 <= 0xffff_ffff * 0x1_0000_0000) by (nonlinear_arith)
        requires
            0 <= hi <= 0xffff_ffff,
    ;
    vstd::arithmetic::div_mod::lemma_fundamental_div_mod_converse(
        hi * 0x1_0000_0000 + (0xffff_ffff - c.offset),
        0x1_0000_0000,
        hi,
        0xffff_ffff - c.offset,
    );
}

/// Keys and candidates correspond one to one, and the key order is the
/// selection order.
pub proof fn lemma_key_bijection(c: ScoredCandidate, k: u64)
    ensures
        cand_of(key_of(c)) == c,
        key_of(cand_of(k)) == k,
{
    lemma_key_parts(c);
    let kc = cand_of(k);
    vstd::arithmetic::div_mod::lemma_fundamental_div_mod(k as int, 0x1_0000_0000);
    vstd::arithmetic::div_mod::lemma_mod_pos_bound(k as int, 0x1_0000_0000);
    assert(k as int / 0x1_0000_0000 <= 0xffff_ffff) by (nonlinear_arith)
        requires
            k as int == 0x1_0000_0000 * (k as int / 0x1_0000_0000) + k as int % 0x1_0000_0000,
            k as int % 0x1_0000_0000 >= 0,
            k <= u64::MAX,
    ;
    assert(k as int / 0x1_0000_0000 >= 0) by (nonlinear_arith)
        requires
            k as int == 0x1_0000_0000 * (k as int / 0x1_0000_0000) + k as int % 0x1_0000_0000,
            k as int % 0x1_0000_0000 < 0x1_0000_0000,
            k >= 0,
    ;
    lemma_key_parts(kc);
}

pub proof fn lemma_key_order(a: ScoredCandidate, b: ScoredCandidate)
    ensures
        ranks_above(a, b) <==> key_of(a) > key_of(b),
{
    lemma_key_parts(a);
    lemma_key_parts(b);
    let ha = a.score + 0x8000_0000;
    let hb = b.score + 0x8000_0000;
    if ha > hb {
        assert(ha * 0x1_0000_0000 >= hb * 0x1_0000_0000 + 0x1_0000_0000) by (nonlinear_arith)
            requires
                ha >= hb + 1,
        ;
    } else if ha < hb {
        assert(hb * 0x1_0000_0000 >= ha * 0x1_0000_0000 + 0x1_0000_0000) by (nonlinear_arith)
            requires
                hb >= ha + 1,
        ;
    }
}

impl ScoredCandidate {
    /// The candidate's key, ordered as the candidates rank.
    pub fn key(&self) -> (r: u64)
        ensures
            r == key_of(*self),
    {
        proof {
            lemma_key_parts(*self);
        }
        let hi = (self.score as i64 + 0x8000_0000i64) as u64;
        assert(hi * OFFSET_SPAN <= 0xffff_ffff * 0x1_0000_0000) by (nonlinear_arith)
            requires
                hi <= 0xffff_ffff,
        ;
        hi * OFFSET_SPAN + (0xffff_ffffu64 - self.offset as u64)
    }

    /// The candidate that a key stands for.
    pub fn from_key(k: u64) -> (r: ScoredCandidate)
        ensures
            r == cand_of(k),
    {
        proof {
            lemma_key_bijection(ScoredCandidate { offset: 0, score: 0 }, k);
        }
        let hi = k / OFFSET_SPAN;
        let lo = k % OFFSET_SPAN;
        ScoredCandidate { offset: (0xffff_ffffu64 - lo) as u32, score: (hi as i64 - 0x8000_0000i64) as i32 }
    }

    pub fn new(offset: u32, score: i32) -> (r: ScoredCandidate)
        ensures
            r.offset == offset,
            r.score == score,
    {
        ScoredCandidate { offset, score }
    }

    /// Whether `self` comes strictly before `other` in the selection order.
    pub fn ranks_above(&self, other: &ScoredCandidate) -> (r: bool)
        ensures
            r == ranks_above(*self, *other),
    {
        self.score > other.score || (self.score == other.score && self.offset < other.offset)
    }

    /// Whether the two candidates are the same point with the same score.
    pub fn same_as(&self, other: &ScoredCandidate) -> (r: bool)
        ensures
            r == (*self == *other),
    {
        self.offset == other.offset && self.score == other.score
    }
}

} // verus!
