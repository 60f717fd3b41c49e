use vstd::prelude::*;
use crate::config::StackType;

verus! {

/// Thumb state bit of the initial xPSR.
pub const INITIAL_XPSR: StackType = 0x0100_0000u32;

/// Clears the lowest bit of a code address.
pub const START_ADDRESS_MASK: StackType = 0xffff_fffeu32;

/// The word a fresh stack is filled with; the lowest words must keep it.
pub const STACK_FILL_BYTE: StackType = 0xa5a5_a5a5u32;

/// How many of the lowest stack words are checked for the fill pattern.
pub const STACK_CHECK_WORDS: usize = 4usize;

/// Number of words of the initial frame below the top of the stack: the
/// words the context switch restores (r4-r11, then s16-s31) and, above them,
/// the exception frame the hardware restores (r0-r3, r12, LR, PC, xPSR, then
/// s0-s15 and FPSCR).
pub const FRAME_WORDS: usize = 49usize;

/// Offset in the frame of r0, the first word of the hardware frame.
pub const HW_FRAME_OFFSET: usize = 24usize;

/// A stack of `depth` words, all holding the fill pattern.
pub open spec fn filled_stack(depth: nat) -> Seq<StackType> {
    Seq::new(depth, |j: int| STACK_FILL_BYTE)
}

/// The value of word `o` of the initial frame (word 0 is r4, the new top
/// of stack): in the hardware frame, the parameter in r0, the return address
/// in LR, the entry address with its lowest bit cleared in PC and the Thumb
/// bit in xPSR; every other register (r1-r3, r12, s0-s31, FPSCR, r4-r11)
/// cleared.
pub open spec fn frame_word(o: int, task_fn: StackType, exit_fn: StackType, param: StackType) -> StackType {
    if o == HW_FRAME_OFFSET + 7 {
        INITIAL_XPSR
    } else if o == HW_FRAME_OFFSET + 6 {
        task_fn & START_ADDRESS_MASK
    } else if o == HW_FRAME_OFFSET + 5 {
        exit_fn
    } else if o == HW_FRAME_OFFSET {
        param
    } else {
        0u32
    }
}

/// The stack after the initial frame of a task is written in the
/// `FRAME_WORDS` words below `top`, as `frame_word` says; the words outside
/// the frame keep what was there.
pub open spec fn initial_frame(
    s: Seq<StackType>,
    top: int,
    task_fn: StackType,
    exit_fn: StackType,
    param: StackType,
) -> Seq<StackType> {
    Seq::new(
        s.len(),
        |i: int|
            if top - FRAME_WORDS <= i < top {
                frame_word(i - (top - FRAME_WORDS), task_fn, exit_fn, param)
            } else {
                s[i]
            },
    )
}

/// Writes the initial frame of a task below word `top` of `stack` and
/// returns the index of the new top of stack (r4 of the saved frame).
pub fn initialise_stack(
    stack: &mut Vec<StackType>,
    top: usize,
    task_fn: StackType,
    exit_fn: StackType,
    param: StackType,
) -> (r: usize)
    requires
        FRAME_WORDS <= top < old(stack)@.len(),
    ensures
        r == top - FRAME_WORDS,
        final(stack)@ == initial_frame(old(stack)@, top as int, task_fn, exit_fn, param),
{
    let base = top - FRAME_WORDS;
    let ghost s0 = stack@;
    let mut i: usize = base;
    // every saved register starts cleared
    while i < top
        invariant
            base == top - FRAME_WORDS,
            base <= i <= top,
            top < s0.len(),
            stack@.len() == s0.len(),
            forall|j: int| 0 <= j < s0.len() && !(base <= j < i) ==> stack@[j] == s0[j],
            forall|j: int| base <= j < i ==> stack@[j] == 0u32,
        decreases top - i,
    {
        stack.set(i, 0);
        i = i + 1;
    }
    // the hardware frame starts after r4-r11 and s16-s31
    let hw = base + HW_FRAME_OFFSET;
    // xPSR
    stack.set(hw + 7, INITIAL_XPSR);
    // PC
    stack.set(hw + 6, task_fn & START_ADDRESS_MASK);
    // LR
    stack.set(hw + 5, exit_fn);
    // r0 holds the parameter
    stack.set(hw, param);
    assert(stack@ =~= initial_frame(s0, top as int, task_fn, exit_fn, param));
    base
}

/// True when the lowest `STACK_CHECK_WORDS` words still hold the fill
/// pattern, that is when the stack has not overflowed.
pub fn check_stack_overflow(stack: &Vec<StackType>) -> (r: bool)
    requires
        STACK_CHECK_WORDS <= stack@.len(),
    ensures
        r <==> forall|i: int| 0 <= i < STACK_CHECK_WORDS ==> stack@[i] == STACK_FILL_BYTE,
{
    let mut i: usize = 0;
    while i < STACK_CHECK_WORDS
        invariant
            i <= STACK_CHECK_WORDS,
            STACK_CHECK_WORDS <= stack@.len(),
            forall|j: int| 0 <= j < i ==> stack@[j] == STACK_FILL_BYTE,
        decreases STACK_CHECK_WORDS - i,
    {
        if stack[i] != STACK_FILL_BYTE {
            return false;
        }
        i = i + 1;
    }
    true
}

/// The nesting depth of critical sections. Interrupts are masked while it is
/// positive; the value before the scheduler starts is a marker that keeps
/// them masked during start-up.
pub struct CriticalNesting {
    pub depth: u32,
}

impl CriticalNesting {
    /// The start-up value of the counter.
    pub fn new() -> (r: Self)
        ensures
            r.depth == 0xaaaa_aaaau32,
    {
        CriticalNesting { depth: 0xaaaa_aaaau32 }
    }

    /// The scheduler clears the counter when it starts.
    pub fn reset(&mut self)
        ensures
            final(self).depth == 0,
    {
        self.depth = 0;
    }

    /// Entering a critical section (after interrupts are masked).
    pub fn enter_critical(&mut self)
        requires
            old(self).depth < u32::MAX,
        ensures
            entered(*old(self), *final(self)),
    {
        self.depth = self.depth + 1;
    }

    /// Leaving a critical section; true when the outermost one ends and
    /// interrupts are to be unmasked.
    pub fn exit_critical(&mut self) -> (r: bool)
        requires
            old(self).depth > 0,
        ensures
            exited(*old(self), *final(self), r),
    {
        self.depth = self.depth - 1;
        self.depth == 0
    }
}

/// `c1` is `c0` after `enter_critical`: one level deeper.
pub open spec fn entered(c0: CriticalNesting, c1: CriticalNesting) -> bool {
    c1.depth == c0.depth + 1
}

/// `c1` is `c0` after `exit_critical`, which returned `r`: one level less,
/// and `r` tells whether no critical section is open any more.
pub open spec fn exited(c0: CriticalNesting, c1: CriticalNesting, r: bool) -> bool {
    &&& c1.depth == c0.depth - 1
    &&& (r <==> c1.depth == 0)
}

/// The round trip of critical sections: from `cs[0]`, `n` calls of
/// `enter_critical` followed by `n` calls of `exit_critical` (the `j`-th
/// returning `rs[j]`) give back the starting depth, and an exit reports that
/// interrupts are to be unmasked only when it is the last one and the round
/// trip started with no critical section open.
pub proof fn lemma_nesting_round_trip(cs: Seq<CriticalNesting>, rs: Seq<bool>, n: int)
    requires
        n >= 1,
        cs.len() == 2 * n + 1,
        rs.len() == n,
        forall|i: int| 0 <= i < n ==> entered(#[trigger] cs[i], cs[i + 1]),
        forall|j: int| 0 <= j < n ==> exited(#[trigger] cs[n + j], cs[n + j + 1], rs[j]),
    ensures
        cs[2 * n].depth == cs[0].depth,
        forall|j: int| 0 <= j < n ==> (#[trigger] rs[j] <==> (j == n - 1 && cs[0].depth == 0)),
{
    lemma_nesting_depths(cs, rs, n, 2 * n);
    assert forall|j: int| 0 <= j < n implies (#[trigger] rs[j] <==> (j == n - 1 && cs[0].depth == 0)) by {
        lemma_nesting_depths(cs, rs, n, n + j + 1);
        assert(exited(cs[n + j], cs[n + j + 1], rs[j]));
    }
}

/// The depth after the first `m` calls of such a round trip.
proof fn lemma_nesting_depths(cs: Seq<CriticalNesting>, rs: Seq<bool>, n: int, m: int)
    requires
        n >= 1,
        cs.len() == 2 * n + 1,
        rs.len() == n,
        0 <= m <= 2 * n,
        forall|i: int| 0 <= i < n ==> entered(#[trigger] cs[i], cs[i + 1]),
        forall|j: int| 0 <= j < n ==> exited(#[trigger] cs[n + j], cs[n + j + 1], rs[j]),
    ensures
        cs[m].depth == (if m <= n { cs[0].depth + m } else { cs[0].depth + 2 * n - m }),
    decreases m,
{
    if m > 0 {
        lemma_nesting_depths(cs, rs, n, m - 1);
        if m <= n {
            assert(entered(cs[m - 1], cs[m]));
        } else {
            assert(exited(cs[n + (m - 1 - n)], cs[n + (m - 1 - n) + 1], rs[m - 1 - n]));
        }
    }
}

/// A freshly initialised stack passes the overflow check when it is deep
/// enough for the initial frame to lie above the words the check reads.
pub proof fn lemma_fresh_stack_passes_check(
    depth: int,
    task_fn: StackType,
    exit_fn: StackType,
    param: StackType,
)
    requires
        depth > FRAME_WORDS + STACK_CHECK_WORDS,
    ensures
        forall|i: int|
            0 <= i < STACK_CHECK_WORDS ==> #[trigger] initial_frame(
                filled_stack(depth as nat),
                depth - 1,
                task_fn,
                exit_fn,
                param,
            )[i] == STACK_FILL_BYTE,
{
}

/// Where the first start of a task finds its registers: counting from the
/// new top of stack, r0 (the parameter) at word 24, LR (the return address)
/// at 29, PC (the entry address, lowest bit cleared) at 30 and xPSR
/// (Thumb bit only) at 31; every other word of the frame is zero and the
/// words outside the frame keep what was there.
pub proof fn lemma_frame_layout(
    s: Seq<StackType>,
    top: int,
    task_fn: StackType,
    exit_fn: StackType,
    param: StackType,
)
    requires
        49 <= top < s.len(),
    ensures
        ({
            let f = initial_frame(s, top, task_fn, exit_fn, param);
            let b = top - 49;
            &&& f.len() == s.len()
            &&& f[b + 24] == param
            &&& f[b + 29] == exit_fn
            &&& f[b + 30] == task_fn & 0xffff_fffeu32
            &&& f[b + 31] == 0x0100_0000u32
            &&& forall|i: int|
                b <= i < top && i != b + 24 && i != b + 29 && i != b + 30 && i != b + 31
                    ==> #[trigger] f[i] == 0u32
            &&& forall|i: int| 0 <= i < s.len() && !(b <= i < top) ==> #[trigger] f[i] == s[i]
        }),
{
}

} // verus!
