//! The shared instruction vocabulary, its mathematical view, and the
//! well-formedness predicates that the parser establishes and the executor
//! relies on.
use vstd::prelude::*;

verus! {

/// One instruction of the flat program vector.
///
/// Counted instructions (`Increment`, `Decrement`, `ShiftLeft`, `ShiftRight`)
/// carry the run length `n >= 1` of the collapsed source operators.
/// `StartLoop` carries `None` only while the parser has not yet seen the
/// matching `]`; a parsed program has every target resolved to `Some(t)`,
/// where `t` is the index just past the matching `EndLoop`. `EndLoop` carries
/// the index of its matching `StartLoop`. `Command` carries the raw bytes of
/// a meta-command payload, captured verbatim between `#` and `;`.
#[derive(Debug, PartialEq, Eq)]
pub enum Instruction {
    Increment(usize),
    Decrement(usize),
    ShiftLeft(usize),
    ShiftRight(usize),
    Output,
    Input,
    StartLoop(Option<usize>),
    EndLoop(usize),
    Command(Vec<u8>),
}

/// The mathematical value of an [`Instruction`]: counts and indices as
/// unbounded naturals, the command payload as a byte sequence.
pub enum InstrView {
    Increment(nat),
    Decrement(nat),
    ShiftLeft(nat),
    ShiftRight(nat),
    Output,
    Input,
    StartLoop(Option<nat>),
    EndLoop(nat),
    Command(Seq<u8>),
}

impl View for Instruction {
    type V = InstrView;

    open spec fn view(&self) -> InstrView {
        match self {
            Instruction::Increment(n) => InstrView::Increment(*n as nat),
            Instruction::Decrement(n) => InstrView::Decrement(*n as nat),
            Instruction::ShiftLeft(n) => InstrView::ShiftLeft(*n as nat),
            Instruction::ShiftRight(n) => InstrView::ShiftRight(*n as nat),
            Instruction::Output => InstrView::Output,
            Instruction::Input => InstrView::Input,
            Instruction::StartLoop(t) => InstrView::StartLoop(
                match t {
                    Some(i) => Some(*i as nat),
                    None => None,
                },
            ),
            Instruction::EndLoop(s) => InstrView::EndLoop(*s as nat),
            Instruction::Command(text) => InstrView::Command(text@),
        }
    }
}

/// The view of a whole instruction vector.
pub open spec fn instrs_view(v: Seq<Instruction>) -> Seq<InstrView> {
    v.map_values(|i: Instruction| i@)
}

/// Every `StartLoop` has a resolved (`Some`) jump target: the invariant a
/// parsed program satisfies before execution begins.
pub open spec fn resolved(instrs: Seq<InstrView>) -> bool {
    forall|i: int|
        0 <= i < instrs.len() ==> !(#[trigger] instrs[i] matches InstrView::StartLoop(None))
}

/// Jump targets stay within the vector: a `StartLoop` target is at most the
/// length (one past the last instruction) and an `EndLoop` back-reference is a
/// valid index.
pub open spec fn targets_bounded(instrs: Seq<InstrView>) -> bool {
    forall|i: int|
        0 <= i < instrs.len() ==> match #[trigger] instrs[i] {
            InstrView::StartLoop(t) => t matches Some(n) ==> n <= instrs.len(),
            InstrView::EndLoop(s) => s < instrs.len(),
            _ => true,
        }
}

/// Counted instructions carry a positive count.
pub open spec fn counts_positive(instrs: Seq<InstrView>) -> bool {
    forall|i: int|
        0 <= i < instrs.len() ==> match #[trigger] instrs[i] {
            InstrView::Increment(n) => n >= 1,
            InstrView::Decrement(n) => n >= 1,
            InstrView::ShiftLeft(n) => n >= 1,
            InstrView::ShiftRight(n) => n >= 1,
            _ => true,
        }
}

/// Loop brackets point at each other: a resolved `StartLoop` at `i` with
/// target `t` has its matching `EndLoop` at `t - 1` referring back to `i`,
/// and an `EndLoop` at `j` refers back to a `StartLoop` whose target is
/// `j + 1`, the index just past the `EndLoop`.
pub open spec fn loops_matched(instrs: Seq<InstrView>) -> bool {
    &&& forall|i: int|
        0 <= i < instrs.len() ==> match #[trigger] instrs[i] {
            InstrView::StartLoop(t) => t matches Some(n)
                ==> i + 1 < n <= instrs.len() && instrs[n - 1] == InstrView::EndLoop(i as nat),
            _ => true,
        }
    &&& forall|j: int|
        0 <= j < instrs.len() ==> match #[trigger] instrs[j] {
            InstrView::EndLoop(s) => s < j && instrs[s as int] == InstrView::StartLoop(
                Some((j + 1) as nat),
            ),
            _ => true,
        }
}

/// What the parser guarantees of every instruction vector it hands out: a
/// batch with this shape may be executed or appended to a live program.
pub open spec fn batch_wf(instrs: Seq<InstrView>) -> bool {
    &&& resolved(instrs)
    &&& targets_bounded(instrs)
    &&& counts_positive(instrs)
    &&& loops_matched(instrs)
}

} // verus!
