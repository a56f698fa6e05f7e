//! The single-pass parser: run-length folding and bracket linking.

use vstd::prelude::*;
use crate::instruction::{
    BFInstruction, shape, untargeted, linked, ends_linked, properly_nested, maximally_folded,
    moves_within,
};
use crate::theorems::{
    lemma_folding_is_maximal, lemma_shape_keeps_folding, lemma_move_counts, lemma_shape_keeps_moves,
};

verus! {

/// `+`
pub const PLUS: u8 = 43;
/// `-`
pub const MINUS: u8 = 45;
/// `>`
pub const RIGHT: u8 = 62;
/// `<`
pub const LEFT: u8 = 60;
/// `.`
pub const DOT: u8 = 46;
/// `,`
pub const COMMA: u8 = 44;
/// `[`
pub const OPEN: u8 = 91;
/// `]`
pub const CLOSE: u8 = 93;

/// Whether a source byte is one of the eight operators. Every other byte is a comment.
pub open spec fn is_opcode(byte: u8) -> bool {
    byte == PLUS || byte == MINUS || byte == RIGHT || byte == LEFT || byte == DOT || byte == COMMA
        || byte == OPEN || byte == CLOSE
}

/// The operators of a source, in order, with the comments left out.
pub open spec fn opcodes(source: Seq<u8>) -> Seq<u8> {
    source.filter(|byte: u8| is_opcode(byte))
}

/// The folded stream after one more source byte, jump targets left at zero.
///
/// An arithmetic or pointer operator that follows a run of its own kind
/// raises that run's count by one, wrapping at the width of the count; any
/// other operator is appended; a comment byte changes nothing.
pub open spec fn fold_byte(prev: Seq<BFInstruction>, byte: u8) -> Seq<BFInstruction> {
    let last = prev.len() - 1;
    if byte == PLUS {
        if prev.len() > 0 && prev[last] is Add {
            prev.update(last, BFInstruction::Add(prev[last]->Add_0.wrapping_add(1)))
        } else {
            prev.push(BFInstruction::Add(1))
        }
    } else if byte == MINUS {
        if prev.len() > 0 && prev[last] is Subtract {
            prev.update(last, BFInstruction::Subtract(prev[last]->Subtract_0.wrapping_add(1)))
        } else {
            prev.push(BFInstruction::Subtract(1))
        }
    } else if byte == RIGHT {
        if prev.len() > 0 && prev[last] is AdvancePointer {
            prev.update(
                last,
                BFInstruction::AdvancePointer(prev[last]->AdvancePointer_0.wrapping_add(1)),
            )
        } else {
            prev.push(BFInstruction::AdvancePointer(1))
        }
    } else if byte == LEFT {
        if prev.len() > 0 && prev[last] is RetreatPointer {
            prev.update(
                last,
                BFInstruction::RetreatPointer(prev[last]->RetreatPointer_0.wrapping_add(1)),
            )
        } else {
            prev.push(BFInstruction::RetreatPointer(1))
        }
    } else if byte == DOT {
        prev.push(BFInstruction::Output)
    } else if byte == COMMA {
        prev.push(BFInstruction::Input)
    } else if byte == OPEN {
        prev.push(BFInstruction::LoopStart(0))
    } else if byte == CLOSE {
        prev.push(BFInstruction::LoopEnd(0))
    } else {
        prev
    }
}

/// The folded stream of a source, jump targets left at zero.
pub open spec fn tokens(source: Seq<u8>) -> Seq<BFInstruction>
    decreases source.len(),
{
    if source.len() == 0 {
        Seq::empty()
    } else {
        fold_byte(tokens(source.drop_last()), source.last())
    }
}

/// The number of loops still open after a source, or `None` once a `]` has
/// come with no loop open.
pub open spec fn open_depth(source: Seq<u8>) -> Option<nat>
    decreases source.len(),
{
    if source.len() == 0 {
        Some(0)
    } else {
        match open_depth(source.drop_last()) {
            None => None,
            Some(depth) => if source.last() == OPEN {
                Some(depth + 1)
            } else if source.last() == CLOSE {
                if depth == 0 {
                    None
                } else {
                    Some((depth - 1) as nat)
                }
            } else {
                Some(depth)
            },
        }
    }
}

/// How often a byte occurs in a source.
pub open spec fn occurrences(source: Seq<u8>, byte: u8) -> nat
    decreases source.len(),
{
    if source.len() == 0 {
        0
    } else {
        occurrences(source.drop_last(), byte) + if source.last() == byte {
            1nat
        } else {
            0nat
        }
    }
}

/// No beginning of the source holds more `]` than `[`.
pub open spec fn never_closes_early(source: Seq<u8>) -> bool {
    forall|k: int|
        0 <= k <= source.len() ==> occurrences(#[trigger] source.take(k), CLOSE) <= occurrences(
            source.take(k),
            OPEN,
        )
}

/// Brackets are balanced: no `]` comes with no loop open, and none stays open.
pub open spec fn balanced(source: Seq<u8>) -> bool {
    open_depth(source) == Some(0nat)
}

/// What parsing a source yields: the folded stream with its brackets linked,
/// for a balanced source, and nothing for any other.
pub open spec fn parses_to(source: Seq<u8>, outcome: Option<Seq<BFInstruction>>) -> bool {
    match outcome {
        Some(stream) => balanced(source) && shape(stream) == tokens(source) && linked(stream),
        None => !balanced(source),
    }
}

/// The linking while some loops are still open: `open` holds their positions,
/// innermost last, each still carrying the target zero.
#[verifier::opaque]
spec fn partly_linked(stream: Seq<BFInstruction>, open: Seq<usize>) -> bool {
    &&& forall|k: int|
        0 <= k < open.len() ==> (#[trigger] open[k]) < stream.len() && stream[open[k] as int]
            == BFInstruction::LoopStart(0)
    &&& forall|k1: int, k2: int| 0 <= k1 < k2 < open.len() ==> open[k1] < open[k2]
    &&& forall|i: int|
        0 <= i < stream.len() ==> (#[trigger] stream[i] matches BFInstruction::LoopStart(j) ==> {
            &&& j == 0 ==> open.contains(i as usize)
            &&& j != 0 ==> i < j < stream.len() && stream[j as int] == BFInstruction::LoopEnd(
                i as usize,
            )
        })
    &&& ends_linked(stream)
    &&& properly_nested(stream)
    &&& forall|a: int, k: int|
        0 <= a < stream.len() && 0 <= k < open.len() ==> (#[trigger] stream[a] matches BFInstruction::LoopStart(
            ja,
        ) ==> !(a < #[trigger] open[k] < ja))
}

/// Whether an instruction is no bracket.
spec fn plain(ins: BFInstruction) -> bool {
    !(ins is LoopStart) && !(ins is LoopEnd)
}

/// Nothing is linked in an empty stream.
proof fn lemma_empty_partly_linked()
    ensures
        partly_linked(Seq::empty(), Seq::empty()),
{
    reveal(partly_linked);
}

/// With no loop open, the linking is complete.
proof fn lemma_all_closed(stream: Seq<BFInstruction>, open: Seq<usize>)
    requires
        partly_linked(stream, open),
        open.len() == 0,
    ensures
        linked(stream),
{
    reveal(partly_linked);
}

/// Raising the count of the last instruction leaves the linking as it is.
proof fn lemma_replace_last(stream: Seq<BFInstruction>, open: Seq<usize>, ins: BFInstruction)
    requires
        partly_linked(stream, open),
        stream.len() > 0,
        plain(stream.last()),
        plain(ins),
    ensures
        partly_linked(stream.update(stream.len() - 1, ins), open),
{
    reveal(partly_linked);
    let after = stream.update(stream.len() - 1, ins);
    assert forall|i: int| 0 <= i < after.len() && after[i] is LoopStart implies after[i]
        == stream[i] by {}
    assert forall|i: int| 0 <= i < after.len() && after[i] is LoopEnd implies after[i]
        == stream[i] by {}
}

/// Appending an instruction that is no bracket leaves the linking as it is.
proof fn lemma_push_plain(stream: Seq<BFInstruction>, open: Seq<usize>, ins: BFInstruction)
    requires
        partly_linked(stream, open),
        plain(ins),
    ensures
        partly_linked(stream.push(ins), open),
{
    reveal(partly_linked);
    let after = stream.push(ins);
    assert forall|i: int| 0 <= i < after.len() && !plain(after[i]) implies i < stream.len()
        && after[i] == stream[i] by {}
}

/// Opening a loop appends its position to the open ones.
proof fn lemma_push_open(stream: Seq<BFInstruction>, open: Seq<usize>)
    requires
        partly_linked(stream, open),
        stream.len() <= usize::MAX,
    ensures
        partly_linked(stream.push(BFInstruction::LoopStart(0)), open.push(stream.len() as usize)),
{
    reveal(partly_linked);
    let after = stream.push(BFInstruction::LoopStart(0));
    let open_after = open.push(stream.len() as usize);
    assert(open_after[open.len() as int] == stream.len());
    assert forall|p: usize| open.contains(p) implies open_after.contains(p) by {
        let k = choose|k: int| 0 <= k < open.len() && open[k] == p;
        assert(open_after[k] == p);
    }
    assert forall|i: int| 0 <= i < stream.len() implies after[i] == stream[i] by {}
}

/// Closing a loop links the innermost open position with the new end.
proof fn lemma_close(stream: Seq<BFInstruction>, open: Seq<usize>)
    requires
        partly_linked(stream, open),
        open.len() > 0,
        stream.len() <= usize::MAX,
    ensures
        open.last() < stream.len(),
        stream[open.last() as int] == BFInstruction::LoopStart(0),
        partly_linked(
            stream.update(
                open.last() as int,
                BFInstruction::LoopStart(stream.len() as usize),
            ).push(BFInstruction::LoopEnd(open.last())),
            open.drop_last(),
        ),
{
    reveal(partly_linked);
    let start = open.last();
    let end = stream.len() as usize;
    let after = stream.update(start as int, BFInstruction::LoopStart(end)).push(
        BFInstruction::LoopEnd(start),
    );
    let open_after = open.drop_last();
    assert(open[open.len() - 1] == start);
    assert(stream[start as int] == BFInstruction::LoopStart(0));
    assert forall|p: usize| open.contains(p) && p != start implies open_after.contains(p) by {
        let k = choose|k: int| 0 <= k < open.len() && open[k] == p;
        assert(open_after[k] == p);
    }
    assert forall|i: int| 0 <= i < stream.len() && i != start implies after[i] == stream[i] by {}
    assert forall|k: int| 0 <= k < open_after.len() implies open_after[k] == open[k]
        && open_after[k] < start by {}
}

/// Once a `]` has come with no loop open, no continuation repairs the source.
proof fn lemma_unbalanced_prefix(source: Seq<u8>, k: int)
    requires
        0 <= k <= source.len(),
        open_depth(source.take(k)) is None,
    ensures
        open_depth(source) is None,
    decreases source.len(),
{
    if k == source.len() {
        assert(source.take(k) =~= source);
    } else {
        assert(source.drop_last().take(k) =~= source.take(k));
        lemma_unbalanced_prefix(source.drop_last(), k);
    }
}

/// Parses a source into its instruction stream.
///
/// Returns the stream exactly when the brackets of the source are balanced.
/// The stream is then the folded operators of the source, comments skipped,
/// with every bracket holding the position of its partner. A count that
/// wraps to zero stays in the stream: 256 bytes `+` give `Add(0)`.
pub fn parse_data(data: &[u8]) -> (result: Option<Vec<BFInstruction>>)
    ensures
        result is Some <==> balanced(data@),
        result matches Some(stream) ==> shape(stream@) == tokens(data@) && linked(stream@),
        result matches Some(stream) ==> maximally_folded(stream@) && moves_within(
            stream@,
            data@.len(),
        ),
        parses_to(
            data@,
            match result {
                Some(stream) => Some(stream@),
                None => None,
            },
        ),
{
    let mut instructions: Vec<BFInstruction> = Vec::new();
    let mut loop_stack: Vec<usize> = Vec::new();
    let mut i: usize = 0;
    proof {
        assert(data@.take(0) =~= Seq::<u8>::empty());
        lemma_empty_partly_linked();
    }
    while i < data.len()
        invariant
            i <= data.len(),
            instructions@.len() <= i,
            shape(instructions@) =~= tokens(data@.take(i as int)),
            open_depth(data@.take(i as int)) == Some(loop_stack@.len()),
            partly_linked(instructions@, loop_stack@),
        decreases data.len() - i,
    {
        let byte = data[i];
        let n = instructions.len();
        let ghost before = instructions@;
        let ghost open_before = loop_stack@;
        proof {
            assert(data@.take(i + 1).drop_last() =~= data@.take(i as int));
            assert(data@.take(i + 1).last() == byte);
            if n > 0 {
                assert(shape(before)[n - 1] == untargeted(before[n - 1]));
            }
        }
        if byte == PLUS {
            if n > 0 && matches!(instructions[n - 1], BFInstruction::Add(_)) {
                if let BFInstruction::Add(count) = instructions[n - 1] {
                    let folded = BFInstruction::Add(count.wrapping_add(1));
                    instructions.set(n - 1, folded);
                    proof {
                        lemma_replace_last(before, open_before, folded);
                    }
                }
            } else {
                instructions.push(BFInstruction::Add(1));
                proof {
                    lemma_push_plain(before, open_before, BFInstruction::Add(1));
                }
            }
        } else if byte == MINUS {
            if n > 0 && matches!(instructions[n - 1], BFInstruction::Subtract(_)) {
                if let BFInstruction::Subtract(count) = instructions[n - 1] {
                    let folded = BFInstruction::Subtract(count.wrapping_add(1));
                    instructions.set(n - 1, folded);
                    proof {
                        lemma_replace_last(before, open_before, folded);
                    }
                }
            } else {
                instructions.push(BFInstruction::Subtract(1));
                proof {
                    lemma_push_plain(before, open_before, BFInstruction::Subtract(1));
                }
            }
        } else if byte == RIGHT {
            if n > 0 && matches!(instructions[n - 1], BFInstruction::AdvancePointer(_)) {
                if let BFInstruction::AdvancePointer(count) = instructions[n - 1] {
                    let folded = BFInstruction::AdvancePointer(count.wrapping_add(1));
                    instructions.set(n - 1, folded);
                    proof {
                        lemma_replace_last(before, open_before, folded);
                    }
                }
            } else {
                instructions.push(BFInstruction::AdvancePointer(1));
                proof {
                    lemma_push_plain(before, open_before, BFInstruction::AdvancePointer(1));
                }
            }
        } else if byte == LEFT {
            if n > 0 && matches!(instructions[n - 1], BFInstruction::RetreatPointer(_)) {
                if let BFInstruction::RetreatPointer(count) = instructions[n - 1] {
                    let folded = BFInstruction::RetreatPointer(count.wrapping_add(1));
                    instructions.set(n - 1, folded);
                    proof {
                        lemma_replace_last(before, open_before, folded);
                    }
                }
            } else {
                instructions.push(BFInstruction::RetreatPointer(1));
                proof {
                    lemma_push_plain(before, open_before, BFInstruction::RetreatPointer(1));
                }
            }
        } else if byte == DOT {
            instructions.push(BFInstruction::Output);
            proof {
                lemma_push_plain(before, open_before, BFInstruction::Output);
            }
        } else if byte == COMMA {
            instructions.push(BFInstruction::Input);
            proof {
                lemma_push_plain(before, open_before, BFInstruction::Input);
            }
        } else if byte == OPEN {
            loop_stack.push(n);
            instructions.push(BFInstruction::LoopStart(0));
            proof {
                lemma_push_open(before, open_before);
            }
        } else if byte == CLOSE {
            match loop_stack.pop() {
                None => {
                    proof {
                        lemma_unbalanced_prefix(data@, i + 1);
                    }
                    return None;
                },
                Some(start) => {
                    proof {
                        lemma_close(before, open_before);
                    }
                    instructions.set(start, BFInstruction::LoopStart(n));
                    instructions.push(BFInstruction::LoopEnd(start));
                },
            }
        }
        i += 1;
    }
    assert(data@.take(i as int) =~= data@);
    if loop_stack.len() > 0 {
        return None;
    }
    proof {
        lemma_all_closed(instructions@, loop_stack@);
        lemma_folding_is_maximal(data@);
        lemma_shape_keeps_folding(instructions@);
        lemma_move_counts(data@);
        lemma_shape_keeps_moves(instructions@, data@.len());
    }
    Some(instructions)
}

} // verus!
