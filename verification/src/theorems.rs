//! What holds of every source, every stream and every run.

use vstd::prelude::*;
use crate::instruction::{
    BFInstruction, shape, untargeted, linked, maximally_folded, same_foldable_tag, moves_within,
};
use crate::parser::{
    PLUS, OPEN, CLOSE, is_opcode, opcodes, tokens, open_depth, balanced, parses_to, occurrences,
    never_closes_early,
};
use crate::machine::{
    run_from, initial_state, request_of, executed, next_state, outcome_of, MachineState, Request,
    Reply,
};

verus! {

/// Of two linked streams of one shape, neither ends a loop earlier than the
/// other: were the loop at `i` shorter in `a` than in `b`, the loop that `b`
/// closes at `a`'s end would open inside `a`'s loop and be shorter still in `a`.
proof fn lemma_no_shorter_loop(a: Seq<BFInstruction>, b: Seq<BFInstruction>, i: int)
    requires
        shape(a) == shape(b),
        linked(a),
        linked(b),
        0 <= i < a.len(),
        a[i] is LoopStart,
        b[i] is LoopStart,
    ensures
        a[i]->LoopStart_0 >= b[i]->LoopStart_0,
    decreases b[i]->LoopStart_0,
{
    assert(a.len() == shape(a).len());
    assert(b.len() == shape(b).len());
    let ja = a[i]->LoopStart_0 as int;
    let jb = b[i]->LoopStart_0 as int;
    if ja < jb {
        assert(a[ja] == BFInstruction::LoopEnd(i as usize));
        assert(shape(a)[ja] == untargeted(a[ja]));
        assert(shape(b)[ja] == untargeted(b[ja]));
        assert(b[ja] is LoopEnd);
        let other = b[ja]->LoopEnd_0 as int;
        assert(other < ja && b[other] == BFInstruction::LoopStart(ja as usize));
        assert(shape(a)[other] == untargeted(a[other]));
        assert(shape(b)[other] == untargeted(b[other]));
        assert(a[other] is LoopStart);
        if other < i {
            assert(b[other] is LoopStart && b[i] is LoopStart);
            assert(jb < ja);
        } else {
            assert(other != i);
            assert(a[i] is LoopStart && a[other] is LoopStart);
            assert(a[other]->LoopStart_0 < ja);
            lemma_no_shorter_loop(a, b, other);
        }
    }
}

/// A shape has one linking: two linked streams of the same shape are equal.
pub proof fn lemma_linking_unique(a: Seq<BFInstruction>, b: Seq<BFInstruction>)
    requires
        shape(a) == shape(b),
        linked(a),
        linked(b),
    ensures
        a == b,
{
    assert(a.len() == shape(a).len());
    assert(b.len() == shape(b).len());
    assert forall|i: int| 0 <= i < a.len() && a[i] is LoopStart implies a[i] == b[i] by {
        assert(shape(a)[i] == untargeted(a[i]));
        assert(shape(b)[i] == untargeted(b[i]));
        lemma_no_shorter_loop(a, b, i);
        lemma_no_shorter_loop(b, a, i);
    }
    assert forall|i: int| 0 <= i < a.len() implies a[i] == b[i] by {
        assert(shape(a)[i] == untargeted(a[i]));
        assert(shape(b)[i] == untargeted(b[i]));
        if a[i] is LoopEnd {
            let ia = a[i]->LoopEnd_0 as int;
            assert(a[ia] == BFInstruction::LoopStart(i as usize));
            assert(b[ia] == a[ia]);
            let ib = b[i]->LoopEnd_0 as int;
            assert(b[ib] == BFInstruction::LoopStart(i as usize));
            assert(a[ib] == b[ib]);
            assert(a[i] == BFInstruction::LoopEnd(ib as usize));
        }
    }
    assert(a =~= b);
}

/// A source has one parse.
pub proof fn lemma_parse_unique(
    source: Seq<u8>,
    first: Option<Seq<BFInstruction>>,
    second: Option<Seq<BFInstruction>>,
)
    requires
        parses_to(source, first),
        parses_to(source, second),
    ensures
        first == second,
{
    if balanced(source) {
        lemma_linking_unique(first->Some_0, second->Some_0);
    }
}

/// In the folded stream of any source, no two neighbours are counted
/// instructions of the same kind.
pub proof fn lemma_folding_is_maximal(source: Seq<u8>)
    ensures
        maximally_folded(tokens(source)),
    decreases source.len(),
{
    if source.len() > 0 {
        lemma_folding_is_maximal(source.drop_last());
        let prev = tokens(source.drop_last());
        let now = tokens(source);
        assert forall|i: int| 0 <= i && i + 1 < now.len() implies !same_foldable_tag(
            #[trigger] now[i],
            now[i + 1],
        ) by {
            if i + 1 < prev.len() {
                assert(!same_foldable_tag(prev[i], prev[i + 1]));
            }
        }
    }
}

/// A stream is folded as far as its shape is.
pub proof fn lemma_shape_keeps_folding(stream: Seq<BFInstruction>)
    requires
        maximally_folded(shape(stream)),
    ensures
        maximally_folded(stream),
{
    assert forall|i: int| 0 <= i && i + 1 < stream.len() implies !same_foldable_tag(
        #[trigger] stream[i],
        stream[i + 1],
    ) by {
        assert(!same_foldable_tag(shape(stream)[i], shape(stream)[i + 1]));
    }
}

/// The parse of any source is folded as far as it can be.
pub proof fn lemma_parse_is_maximally_folded(source: Seq<u8>, stream: Seq<BFInstruction>)
    requires
        parses_to(source, Some(stream)),
    ensures
        maximally_folded(stream),
{
    lemma_folding_is_maximal(source);
    lemma_shape_keeps_folding(stream);
}

/// The count of a pointer move is the length of a run of the source, which
/// is too short for the count to wrap: it is at least one and at most the
/// length of the source.
pub proof fn lemma_move_counts(source: Seq<u8>)
    requires
        source.len() <= usize::MAX,
    ensures
        moves_within(tokens(source), source.len()),
    decreases source.len(),
{
    if source.len() > 0 {
        lemma_move_counts(source.drop_last());
        let prev = tokens(source.drop_last());
        let now = tokens(source);
        assert forall|i: int| 0 <= i < now.len() implies match #[trigger] now[i] {
            BFInstruction::AdvancePointer(k) => 1 <= k <= source.len(),
            BFInstruction::RetreatPointer(k) => 1 <= k <= source.len(),
            _ => true,
        } by {
            if i < prev.len() {
                assert(match prev[i] {
                    BFInstruction::AdvancePointer(k) => 1 <= k <= source.len() - 1,
                    BFInstruction::RetreatPointer(k) => 1 <= k <= source.len() - 1,
                    _ => true,
                });
            }
        }
    }
}

/// A stream moves the pointer by the counts that its shape holds.
pub proof fn lemma_shape_keeps_moves(stream: Seq<BFInstruction>, bound: nat)
    requires
        moves_within(shape(stream), bound),
    ensures
        moves_within(stream, bound),
{
    assert forall|i: int| 0 <= i < stream.len() implies match #[trigger] stream[i] {
        BFInstruction::AdvancePointer(k) => 1 <= k <= bound,
        BFInstruction::RetreatPointer(k) => 1 <= k <= bound,
        _ => true,
    } by {
        assert(shape(stream)[i] == untargeted(stream[i]));
    }
}

/// The depth of a source counts its brackets: it is the number of `[` less
/// the number of `]`, and it is lost exactly when some beginning of the
/// source holds more `]` than `[`.
pub proof fn lemma_depth_counts_brackets(source: Seq<u8>)
    ensures
        match open_depth(source) {
            Some(depth) => never_closes_early(source) && depth == occurrences(source, OPEN)
                - occurrences(source, CLOSE),
            None => !never_closes_early(source),
        },
    decreases source.len(),
{
    if source.len() == 0 {
        assert forall|k: int| 0 <= k <= source.len() implies occurrences(
            #[trigger] source.take(k),
            CLOSE,
        ) <= occurrences(source.take(k), OPEN) by {
            assert(source.take(k) =~= source);
        }
    } else {
        let shorter = source.drop_last();
        lemma_depth_counts_brackets(shorter);
        assert(source.take(source.len() as int) =~= source);
        match open_depth(shorter) {
            None => {
                let k = choose|k: int|
                    0 <= k <= shorter.len() && !(occurrences(#[trigger] shorter.take(k), CLOSE)
                        <= occurrences(shorter.take(k), OPEN));
                assert(source.take(k) =~= shorter.take(k));
            },
            Some(depth) => {
                if source.last() == CLOSE && depth == 0 {
                } else {
                    assert forall|k: int| 0 <= k <= source.len() implies occurrences(
                        #[trigger] source.take(k),
                        CLOSE,
                    ) <= occurrences(source.take(k), OPEN) by {
                        if k < source.len() {
                            assert(source.take(k) =~= shorter.take(k));
                        }
                    }
                }
            },
        }
    }
}

/// A source is balanced exactly when it holds as many `]` as `[` and no
/// beginning of it holds more `]` than `[`.
pub proof fn lemma_balanced_by_counting(source: Seq<u8>)
    ensures
        balanced(source) <==> never_closes_early(source) && occurrences(source, OPEN)
            == occurrences(source, CLOSE),
{
    lemma_depth_counts_brackets(source);
}

/// A source without brackets is balanced, so it parses.
pub proof fn lemma_bracket_free_is_balanced(source: Seq<u8>)
    requires
        forall|i: int| 0 <= i < source.len() ==> source[i] != OPEN && source[i] != CLOSE,
    ensures
        balanced(source),
    decreases source.len(),
{
    if source.len() > 0 {
        lemma_bracket_free_is_balanced(source.drop_last());
    }
}

/// How the operators of a source grow with its last byte.
proof fn lemma_opcodes_last(source: Seq<u8>)
    requires
        source.len() > 0,
    ensures
        opcodes(source) == if is_opcode(source.last()) {
            opcodes(source.drop_last()).push(source.last())
        } else {
            opcodes(source.drop_last())
        },
{
    reveal(Seq::filter);
}

/// Folding and bracket depth look at the operators only.
pub proof fn lemma_comments_are_skipped(source: Seq<u8>)
    ensures
        tokens(opcodes(source)) == tokens(source),
        open_depth(opcodes(source)) == open_depth(source),
    decreases source.len(),
{
    reveal(Seq::filter);
    if source.len() > 0 {
        lemma_comments_are_skipped(source.drop_last());
        lemma_opcodes_last(source);
        if is_opcode(source.last()) {
            let kept = opcodes(source.drop_last()).push(source.last());
            assert(kept.drop_last() =~= opcodes(source.drop_last()));
            assert(kept.last() == source.last());
        }
    } else {
        assert(opcodes(source) =~= source);
    }
}

/// Two sources with the same operators have the same parse: both fail, or
/// both give the same stream.
pub proof fn lemma_comments_ignored(
    a: Seq<u8>,
    b: Seq<u8>,
    parse_a: Option<Seq<BFInstruction>>,
    parse_b: Option<Seq<BFInstruction>>,
)
    requires
        opcodes(a) == opcodes(b),
        parses_to(a, parse_a),
        parses_to(b, parse_b),
    ensures
        parse_a == parse_b,
{
    lemma_comments_are_skipped(a);
    lemma_comments_are_skipped(b);
    assert(parses_to(a, parse_b));
    lemma_parse_unique(a, parse_a, parse_b);
}

/// Inserting a comment byte anywhere leaves the operators of a source as
/// they are; so does removing one, read from right to left.
pub proof fn lemma_insert_comment(source: Seq<u8>, at: int, byte: u8)
    requires
        0 <= at <= source.len(),
        !is_opcode(byte),
    ensures
        opcodes(source.insert(at, byte)) == opcodes(source),
{
    let keep = |b: u8| is_opcode(b);
    let front = source.take(at);
    let back = source.skip(at);
    assert(source.insert(at, byte) =~= front.push(byte) + back);
    assert(source =~= front + back);
    lemma_opcodes_last(front.push(byte));
    assert(front.push(byte).drop_last() =~= front);
    Seq::filter_distributes_over_add(front.push(byte), back, keep);
    Seq::filter_distributes_over_add(front, back, keep);
}

/// A run of `n` bytes `+` folds into one `Add` of `n` modulo 256, and into
/// nothing when `n` is zero. A count that has wrapped to zero is kept:
/// 256 bytes `+` give `Add(0)`.
pub proof fn lemma_plus_run(n: nat)
    ensures
        tokens(Seq::new(n, |i: int| PLUS)) == if n == 0 {
            Seq::<BFInstruction>::empty()
        } else {
            seq![BFInstruction::Add((n % 256) as u8)]
        },
    decreases n,
{
    let run = Seq::new(n, |i: int| PLUS);
    if n == 0 {
    } else {
        lemma_plus_run((n - 1) as nat);
        assert(run.drop_last() =~= Seq::new((n - 1) as nat, |i: int| PLUS));
        let prev = tokens(run.drop_last());
        if n == 1 {
            assert(tokens(run) =~= seq![BFInstruction::Add(1)]);
        } else {
            assert(prev[0] == BFInstruction::Add(((n - 1) % 256) as u8));
            assert(tokens(run) =~= seq![BFInstruction::Add((n % 256) as u8)]);
        }
    }
}

/// The parse of `n` bytes `+`: one `Add` of `n` modulo 256, or the empty
/// stream when `n` is zero.
pub proof fn lemma_plus_run_parse(n: nat, parse: Option<Seq<BFInstruction>>)
    requires
        parses_to(Seq::new(n, |i: int| PLUS), parse),
    ensures
        parse == Some(
            if n == 0 {
                Seq::<BFInstruction>::empty()
            } else {
                seq![BFInstruction::Add((n % 256) as u8)]
            },
        ),
{
    let run = Seq::new(n, |i: int| PLUS);
    lemma_bracket_free_is_balanced(run);
    lemma_plus_run(n);
    let stream = parse->Some_0;
    assert(stream.len() == shape(stream).len());
    if n > 0 {
        assert(shape(stream)[0] == untargeted(stream[0]));
    }
    assert(stream =~= tokens(run));
}

/// An `Add` or a `Subtract` whose count has wrapped to zero changes no cell:
/// it only moves the program counter on.
pub proof fn lemma_zero_count_changes_nothing(
    program: Seq<BFInstruction>,
    s: MachineState,
    reply: Reply,
)
    requires
        s.pc < program.len(),
        s.dp < s.cells.len(),
        program[s.pc as int] == BFInstruction::Add(0) || program[s.pc as int]
            == BFInstruction::Subtract(0),
    ensures
        outcome_of(program, s, reply) is None,
        next_state(program, s, reply) == (MachineState { pc: (s.pc + 1) as usize, ..s }),
{
    assert(executed(program, s, reply).cells =~= s.cells);
}

/// A result is final: a step that ends the run leaves the machine where it
/// was, so every later step ends it with the same result.
pub proof fn lemma_halt_is_final(program: Seq<BFInstruction>, s: MachineState, reply: Reply)
    requires
        request_of(program, s) is Halt,
    ensures
        outcome_of(program, s, reply) == Some(request_of(program, s)->Halt_0),
        next_state(program, s, reply) == s,
{
}

/// A run that has halted within some number of steps is not changed by
/// allowing it more.
pub proof fn lemma_more_steps_same_run(
    program: Seq<BFInstruction>,
    s: MachineState,
    input: Seq<u8>,
    output: Seq<u8>,
    steps: nat,
    more: nat,
)
    requires
        run_from(program, s, input, output, steps).0 is Some,
    ensures
        run_from(program, s, input, output, steps + more) == run_from(
            program,
            s,
            input,
            output,
            steps,
        ),
    decreases steps,
{
    match request_of(program, s) {
        Request::Halt(_) => {},
        Request::Write(byte) => {
            lemma_more_steps_same_run(
                program,
                executed(program, s, Reply::Ready),
                input,
                output.push(byte),
                (steps - 1) as nat,
                more,
            );
        },
        Request::Read => {
            if input.len() > 0 {
                lemma_more_steps_same_run(
                    program,
                    executed(program, s, Reply::Byte(input[0])),
                    input.drop_first(),
                    output,
                    (steps - 1) as nat,
                    more,
                );
            } else {
                lemma_more_steps_same_run(
                    program,
                    executed(program, s, Reply::EndOfInput),
                    input,
                    output,
                    (steps - 1) as nat,
                    more,
                );
            }
        },
        Request::Compute => {
            lemma_more_steps_same_run(
                program,
                executed(program, s, Reply::Ready),
                input,
                output,
                (steps - 1) as nat,
                more,
            );
        },
    }
}

/// Sources with the same operators run alike: on any memory size, any input
/// and any number of steps, their parses give the same result and output.
pub proof fn lemma_comments_do_not_change_run(
    a: Seq<u8>,
    b: Seq<u8>,
    parse_a: Seq<BFInstruction>,
    parse_b: Seq<BFInstruction>,
    memory_size: nat,
    input: Seq<u8>,
    steps: nat,
)
    requires
        opcodes(a) == opcodes(b),
        parses_to(a, Some(parse_a)),
        parses_to(b, Some(parse_b)),
    ensures
        run_from(parse_a, initial_state(memory_size), input, Seq::empty(), steps) == run_from(
            parse_b,
            initial_state(memory_size),
            input,
            Seq::empty(),
            steps,
        ),
{
    lemma_comments_ignored(a, b, Some(parse_a), Some(parse_b));
}

} // verus!
