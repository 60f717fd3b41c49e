use vstd::prelude::*;
use vstd::std_specs::bits::{u32_leading_zeros, axiom_u32_leading_zeros};

verus! {

/// Bit `p` of the ready-priority word is set.
pub open spec fn ready_bit(top: u32, p: int) -> bool {
    (top >> (p as u32)) & 1u32 == 1u32
}

/// The bitmap with bit `p` set.
pub open spec fn record_spec(top: u32, p: u32) -> u32 {
    top | (1u32 << p)
}

/// The bitmap with bit `p` cleared.
pub open spec fn clear_spec(top: u32, p: u32) -> u32 {
    top & !(1u32 << p)
}

/// Marks priority `p` as having a ready task.
pub fn record_priority(top: u32, p: u32) -> (r: u32)
    requires
        p < 32,
    ensures
        r == record_spec(top, p),
        forall|q: int| 0 <= q < 32 ==> ready_bit(r, q) == (q == p || ready_bit(top, q)),
        top < 32 && p < 5 ==> r < 32,
{
    let r = top | (1u32 << p);
    assert forall|q: int| 0 <= q < 32 implies ready_bit(r, q) == (q == p || ready_bit(top, q)) by {
        lemma_or_bit(top, p, q as u32);
    }
    assert(top < 32 && p < 5 ==> r < 32) by (bit_vector)
        requires
            r == top | (1u32 << p),
    ;
    r
}

/// Marks priority `p` as having no ready task.
pub fn clear_priority(top: u32, p: u32) -> (r: u32)
    requires
        p < 32,
    ensures
        r == clear_spec(top, p),
        forall|q: int| 0 <= q < 32 ==> ready_bit(r, q) == (q != p && ready_bit(top, q)),
        r <= top,
{
    let r = top & !(1u32 << p);
    assert forall|q: int| 0 <= q < 32 implies ready_bit(r, q) == (q != p && ready_bit(top, q)) by {
        lemma_clear_bit(top, p, q as u32);
    }
    assert(r <= top) by (bit_vector)
        requires
            r == top & !(1u32 << p),
    ;
    r
}

/// The highest set bit of a non-zero word below 32: it is set, it is below 5,
/// and no higher bit is set.
pub fn highest_priority(top: u32) -> (r: u32)
    requires
        top != 0,
        top < 32,
    ensures
        r < 5,
        ready_bit(top, r as int),
        forall|q: int| r < q < 32 ==> !ready_bit(top, q),
{
    let lz = top.leading_zeros();
    proof {
        axiom_u32_leading_zeros(top);
    }
    let r = 31 - lz;
    assert((top >> r) & 1u32 != 0u32);
    assert(ready_bit(top, r as int)) by {
        assert((top >> r) & 1u32 != 0u32 ==> (top >> r) & 1u32 == 1u32) by (bit_vector);
    }
    assert forall|q: int| r < q < 32 implies !ready_bit(top, q) by {
        assert((top >> (q as u32)) & 1u32 == 0u32);
    }
    if r >= 5 {
        assert(top < 32 && r >= 5 && r < 32 ==> (top >> r) & 1u32 == 0u32) by (bit_vector);
    }
    r
}

proof fn lemma_or_bit(x: u32, p: u32, q: u32)
    by (bit_vector)
    requires
        p < 32,
        q < 32,
    ensures
        ((x | (1u32 << p)) >> q) & 1u32 == 1u32 <==> (q == p || (x >> q) & 1u32 == 1u32),
{
}

proof fn lemma_clear_bit(x: u32, p: u32, q: u32)
    by (bit_vector)
    requires
        p < 32,
        q < 32,
    ensures
        ((x & !(1u32 << p)) >> q) & 1u32 == 1u32 <==> (q != p && (x >> q) & 1u32 == 1u32),
{
}

/// The empty word has no bit set.
pub proof fn lemma_zero_word(q: int)
    requires
        0 <= q < 32,
    ensures
        !ready_bit(0u32, q),
{
    let qq = q as u32;
    assert((0u32 >> qq) & 1u32 == 0u32) by (bit_vector);
}

} // verus!
