use vstd::prelude::*;
use crate::config::StackType;

verus! {

/// Thumb state bit of the initial xPSR.
pub const INITIAL_XPSR: StackType = 0x0100_0000u32;

/// Clears the lowest bit of a code address.
pub const START_ADDRESS_MASK: StackType = 0xffff_fffeu32;

/// Number of words of the initial frame below the top of the stack.
pub const FRAME_WORDS: usize = 16usize;

/// The value of word `o` of the initial exception frame (word 0 is r4,
/// the new top of stack): xPSR, the entry address with its lowest bit
/// cleared and the return address at the top, the parameter in r0, and
/// every other register (r1-r3, r12, r4-r11) cleared.
pub open spec fn frame_word(o: int, task_fn: StackType, exit_fn: StackType, param: StackType) -> StackType {
    if o == FRAME_WORDS - 1 {
        INITIAL_XPSR
    } else if o == FRAME_WORDS - 2 {
        task_fn & START_ADDRESS_MASK
    } else if o == FRAME_WORDS - 3 {
        exit_fn
    } else if o == FRAME_WORDS - 8 {
        param
    } else {
        0u32
    }
}

/// The stack after the initial frame of a task is written in the
/// `FRAME_WORDS` words below `top`, as `frame_word` says; the words outside
/// the frame keep what was there.
pub open spec fn initial_frame(
    s: Seq<StackType>,
    top: int,
    task_fn: StackType,
    exit_fn: StackType,
    param: StackType,
) -> Seq<StackType> {
    Seq::new(
        s.len(),
        |i: int|
            if top - FRAME_WORDS <= i < top {
                frame_word(i - (top - FRAME_WORDS), task_fn, exit_fn, param)
            } else {
                s[i]
            },
    )
}

/// Writes the initial frame of a task below word `top` of `stack` and
/// returns the index of the new top of stack (r4 of the saved frame).
pub fn initialise_stack(
    stack: &mut Vec<StackType>,
    top: usize,
    task_fn: StackType,
    exit_fn: StackType,
    param: StackType,
) -> (r: usize)
    requires
        FRAME_WORDS <= top < old(stack)@.len(),
    ensures
        r == top - FRAME_WORDS,
        final(stack)@ == initial_frame(old(stack)@, top as int, task_fn, exit_fn, param),
{
    let base = top - FRAME_WORDS;
    let ghost s0 = stack@;
    let mut i: usize = base;
    // every saved register starts cleared
    while i < top
        invariant
            base == top - FRAME_WORDS,
            base <= i <= top,
            top < s0.len(),
            stack@.len() == s0.len(),
            forall|j: int| 0 <= j < s0.len() && !(base <= j < i) ==> stack@[j] == s0[j],
            forall|j: int| base <= j < i ==> stack@[j] == 0u32,
        decreases top - i,
    {
        stack.set(i, 0);
        i = i + 1;
    }
    // xPSR
    stack.set(top - 1, INITIAL_XPSR);
    // PC
    stack.set(top - 2, task_fn & START_ADDRESS_MASK);
    // LR
    stack.set(top - 3, exit_fn);
    // r0 holds the parameter
    stack.set(top - 8, param);
    assert(stack@ =~= initial_frame(s0, top as int, task_fn, exit_fn, param));
    base
}

/// Where the first start of a task finds its registers: counting from the
/// new top of stack, r0 (the parameter) at word 8, LR (the return address)
/// at 13, PC (the entry address, lowest bit cleared) at 14 and xPSR
/// (Thumb bit only) at 15; every other word of the frame is zero and the
/// words outside the frame keep what was there.
pub proof fn lemma_frame_layout(
    s: Seq<StackType>,
    top: int,
    task_fn: StackType,
    exit_fn: StackType,
    param: StackType,
)
    requires
        16 <= top < s.len(),
    ensures
        ({
            let f = initial_frame(s, top, task_fn, exit_fn, param);
            let b = top - 16;
            &&& f.len() == s.len()
            &&& f[b + 8] == param
            &&& f[b + 13] == exit_fn
            &&& f[b + 14] == task_fn & 0xffff_fffeu32
            &&& f[b + 15] == 0x0100_0000u32
            &&& forall|i: int|
                b <= i < top && i != b + 8 && i != b + 13 && i != b + 14 && i != b + 15
                    ==> #[trigger] f[i] == 0u32
            &&& forall|i: int| 0 <= i < s.len() && !(b <= i < top) ==> #[trigger] f[i] == s[i]
        }),
{
}

} // verus!
