//! The instruction set and the shape of a valid instruction stream.

use vstd::prelude::*;

verus! {

/// One instruction of the folded stream.
#[derive(Clone, Copy, Debug, PartialEq, Eq, Structural)]
pub enum BFInstruction {
    /// Add the count to the current cell, modulo 256.
    Add(u8),
    /// Subtract the count from the current cell, modulo 256.
    Subtract(u8),
    /// Move the data pointer forward by the count, wrapping at the word width.
    AdvancePointer(usize),
    /// Move the data pointer backward by the count, wrapping at the word width.
    RetreatPointer(usize),
    /// Emit the current cell as one byte.
    Output,
    /// Read one byte into the current cell; end of input stores 0.
    Input,
    /// Jump to the matching `LoopEnd` (the index held) if the current cell is zero.
    LoopStart(usize),
    /// Jump to the matching `LoopStart` (the index held) if the current cell is nonzero.
    LoopEnd(usize),
}

/// The instruction with its jump target, if it has one, set to zero.
pub open spec fn untargeted(ins: BFInstruction) -> BFInstruction {
    match ins {
        BFInstruction::LoopStart(_) => BFInstruction::LoopStart(0),
        BFInstruction::LoopEnd(_) => BFInstruction::LoopEnd(0),
        other => other,
    }
}

/// A stream with every jump target erased: what was emitted, without the linking.
pub open spec fn shape(stream: Seq<BFInstruction>) -> Seq<BFInstruction> {
    Seq::new(stream.len(), |i: int| untargeted(stream[i]))
}

/// Whether two instructions are counted instructions of the same kind.
pub open spec fn same_foldable_tag(a: BFInstruction, b: BFInstruction) -> bool {
    ||| a is Add && b is Add
    ||| a is Subtract && b is Subtract
    ||| a is AdvancePointer && b is AdvancePointer
    ||| a is RetreatPointer && b is RetreatPointer
}

/// No two neighbours are counted instructions of the same kind.
pub open spec fn maximally_folded(stream: Seq<BFInstruction>) -> bool {
    forall|i: int|
        0 <= i && i + 1 < stream.len() ==> !same_foldable_tag(
            #[trigger] stream[i],
            stream[i + 1],
        )
}

/// Every pointer move has a count of at least one and at most `bound`.
pub open spec fn moves_within(stream: Seq<BFInstruction>, bound: nat) -> bool {
    forall|i: int|
        0 <= i < stream.len() ==> match #[trigger] stream[i] {
            BFInstruction::AdvancePointer(k) => 1 <= k <= bound,
            BFInstruction::RetreatPointer(k) => 1 <= k <= bound,
            _ => true,
        }
}

/// Every `LoopStart` points forward at a `LoopEnd` that points back at it.
pub open spec fn starts_linked(stream: Seq<BFInstruction>) -> bool {
    forall|i: int|
        0 <= i < stream.len() ==> (#[trigger] stream[i] matches BFInstruction::LoopStart(j) ==> i
            < j < stream.len() && stream[j as int] == BFInstruction::LoopEnd(i as usize))
}

/// Every `LoopEnd` points backward at a `LoopStart` that points at it.
pub open spec fn ends_linked(stream: Seq<BFInstruction>) -> bool {
    forall|j: int|
        0 <= j < stream.len() ==> (#[trigger] stream[j] matches BFInstruction::LoopEnd(i) ==> i
            < j && stream[i as int] == BFInstruction::LoopStart(j as usize))
}

/// Loops do not cross: a loop that opens inside another closes inside it.
pub open spec fn properly_nested(stream: Seq<BFInstruction>) -> bool {
    forall|a: int, b: int|
        0 <= a < b < stream.len() ==> (#[trigger] stream[a] matches BFInstruction::LoopStart(ja)
            ==> (#[trigger] stream[b] matches BFInstruction::LoopStart(jb) ==> b < ja ==> jb
            < ja))
}

/// The linking of a valid stream: brackets are paired both ways and the pairs nest.
pub open spec fn linked(stream: Seq<BFInstruction>) -> bool {
    &&& starts_linked(stream)
    &&& ends_linked(stream)
    &&& properly_nested(stream)
}

/// Every jump target is a position of the stream.
pub open spec fn targets_in_range(stream: Seq<BFInstruction>) -> bool {
    forall|i: int|
        0 <= i < stream.len() ==> match #[trigger] stream[i] {
            BFInstruction::LoopStart(j) => j < stream.len(),
            BFInstruction::LoopEnd(j) => j < stream.len(),
            _ => true,
        }
}

/// Tells whether every jump target of a stream is a position of it.
pub fn has_targets_in_range(stream: &[BFInstruction]) -> (answer: bool)
    ensures
        answer == targets_in_range(stream@),
{
    let mut i: usize = 0;
    while i < stream.len()
        invariant
            i <= stream.len(),
            forall|k: int|
                0 <= k < i ==> match #[trigger] stream@[k] {
                    BFInstruction::LoopStart(j) => j < stream@.len(),
                    BFInstruction::LoopEnd(j) => j < stream@.len(),
                    _ => true,
                },
        decreases stream.len() - i,
    {
        let inside = match stream[i] {
            BFInstruction::LoopStart(j) => j < stream.len(),
            BFInstruction::LoopEnd(j) => j < stream.len(),
            _ => true,
        };
        if !inside {
            return false;
        }
        i += 1;
    }
    true
}

} // verus!
