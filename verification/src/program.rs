//! The tape machine: a growable zero-filled cell tape, a data pointer, an
//! instruction pointer, and a dispatch loop over the flat instruction vector
//! with wrapping arithmetic, clamped left shifts, on-demand growth, byte I/O
//! through a pause protocol, and a small built-in meta-command registry.
use vstd::pervasive::VecAdditionalExecFns;
use vstd::prelude::*;

use crate::instruction::{batch_wf, instrs_view, InstrView, Instruction};
use crate::parser::{parse_spec, Lexer, ParseError, Parser, ParserMode};

verus! {

/// The length of a freshly initialized tape.
pub const INITIAL_TAPE_LEN: usize = 5;

/// The mathematical state of the machine: the program text, the tape, the
/// data pointer and the instruction pointer.
#[verifier::ext_equal]
pub struct ProgramV {
    pub instructions: Seq<InstrView>,
    pub cells: Seq<u8>,
    pub pointer: nat,
    pub ip: nat,
}

/// How one jump target moves when its fragment is appended at `base`.
pub open spec fn rebase_instr(iv: InstrView, base: nat) -> InstrView {
    match iv {
        InstrView::StartLoop(t) => InstrView::StartLoop(
            match t {
                Some(n) => Some(n + base),
                None => None,
            },
        ),
        InstrView::EndLoop(s) => InstrView::EndLoop(s + base),
        _ => iv,
    }
}

/// A freshly parsed fragment with every jump target shifted by `base`: what
/// appending the fragment to a program of length `base` must store so the
/// fragment's loops still point at each other.
pub open spec fn rebased(frag: Seq<InstrView>, base: nat) -> Seq<InstrView> {
    frag.map_values(|x: InstrView| rebase_instr(x, base))
}

/// Appending a well-formed fragment, rebased to the end of a well-formed
/// program, yields a well-formed program: incremental resolution keeps the
/// whole vector's brackets mutually matched.
pub proof fn lemma_append_rebased_wf(a: Seq<InstrView>, frag: Seq<InstrView>)
    requires
        batch_wf(a),
        batch_wf(frag),
    ensures
        batch_wf(a + rebased(frag, a.len())),
{
    let b = a.len();
    let r = rebased(frag, b);
    let c = a + r;
    assert forall|i: int| 0 <= i < c.len() implies !(#[trigger] c[i]
        matches InstrView::StartLoop(None)) by {
        if i < b {
            assert(c[i] == a[i]);
        } else {
            assert(c[i] == rebase_instr(frag[i - b], b));
            assert(!(frag[i - b] matches InstrView::StartLoop(None)));
        }
    }
    assert forall|i: int| 0 <= i < c.len() implies match #[trigger] c[i] {
        InstrView::StartLoop(t) => t matches Some(n) ==> i + 1 < n <= c.len() && c[n - 1]
            == InstrView::EndLoop(i as nat),
        _ => true,
    } by {
        if i < b {
            assert(c[i] == a[i]);
            match a[i] {
                InstrView::StartLoop(Some(n)) => {
                    assert(c[n - 1] == a[n - 1]);
                },
                _ => {},
            }
        } else {
            assert(c[i] == rebase_instr(frag[i - b], b));
            match frag[i - b] {
                InstrView::StartLoop(Some(m)) => {
                    assert(i - b + 1 < m <= frag.len());
                    assert(frag[m - 1] == InstrView::EndLoop((i - b) as nat));
                    assert(c[m - 1 + b] == rebase_instr(frag[m - 1], b));
                },
                _ => {},
            }
        }
    }
    assert forall|j: int| 0 <= j < c.len() implies match #[trigger] c[j] {
        InstrView::EndLoop(s) => s < j && c[s as int] == InstrView::StartLoop(
            Some((j + 1) as nat),
        ),
        _ => true,
    } by {
        if j < b {
            assert(c[j] == a[j]);
            match a[j] {
                InstrView::EndLoop(s) => {
                    assert(c[s as int] == a[s as int]);
                },
                _ => {},
            }
        } else {
            assert(c[j] == rebase_instr(frag[j - b], b));
            match frag[j - b] {
                InstrView::EndLoop(s) => {
                    assert(frag[s as int] == InstrView::StartLoop(Some((j - b + 1) as nat)));
                    assert(c[s as int + b as int] == rebase_instr(frag[s as int], b));
                },
                _ => {},
            }
        }
    }
    assert forall|i: int| 0 <= i < c.len() implies match #[trigger] c[i] {
        InstrView::StartLoop(t) => t matches Some(n) ==> n <= c.len(),
        InstrView::EndLoop(s) => s < c.len(),
        _ => true,
    } by {
        if i < b {
            assert(c[i] == a[i]);
        } else {
            assert(c[i] == rebase_instr(frag[i - b], b));
        }
    }
    assert forall|i: int| 0 <= i < c.len() implies match #[trigger] c[i] {
        InstrView::Increment(n) => n >= 1,
        InstrView::Decrement(n) => n >= 1,
        InstrView::ShiftLeft(n) => n >= 1,
        InstrView::ShiftRight(n) => n >= 1,
        _ => true,
    } by {
        if i < b {
            assert(c[i] == a[i]);
        } else {
            assert(c[i] == rebase_instr(frag[i - b], b));
        }
    }
}

/// A tape of `n` zeroed cells.
fn zero_cells(n: usize) -> (r: Vec<u8>)
    ensures
        r@ == Seq::new(n as nat, |i: int| 0u8),
{
    let mut v: Vec<u8> = Vec::new();
    while v.len() < n
        invariant
            v@.len() <= n,
            forall|i: int| 0 <= i < v@.len() ==> v@[i] == 0u8,
        decreases n - v@.len(),
    {
        v.push(0);
    }
    proof {
        assert(v@ =~= Seq::new(n as nat, |i: int| 0u8));
    }
    v
}

/// The machine. It owns the instruction vector and the tape exclusively; a
/// run mutates the tape and the pointers but never the program text, which
/// grows only through [`Program::append_instructions`] and
/// [`Program::provide_files`].
pub struct Program {
    pub instructions: Vec<Instruction>,
    pub cells: Vec<u8>,
    pub pointer: usize,
    pub instruction_pointer: usize,
}

impl View for Program {
    type V = ProgramV;

    open spec fn view(&self) -> ProgramV {
        ProgramV {
            instructions: instrs_view(self.instructions@),
            cells: self.cells@,
            pointer: self.pointer as nat,
            ip: self.instruction_pointer as nat,
        }
    }
}

impl Program {
    /// The machine's invariant: the data pointer always addresses a cell,
    /// and the program text is a well-formed parse result (targets resolved,
    /// in bounds, mutually matched; counts positive).
    pub open spec fn wf(&self) -> bool {
        &&& self@.pointer < self@.cells.len()
        &&& batch_wf(self@.instructions)
    }

    /// A machine over a parsed instruction vector, with a fresh small
    /// zero-filled tape and both pointers at the start.
    pub fn new(instructions: Vec<Instruction>) -> (r: Self)
        requires
            batch_wf(instrs_view(instructions@)),
        ensures
            r.wf(),
            r@.instructions == instrs_view(instructions@),
            r@.cells == Seq::new(INITIAL_TAPE_LEN as nat, |i: int| 0u8),
            r@.pointer == 0,
            r@.ip == 0,
    {
        Program {
            instructions,
            cells: zero_cells(INITIAL_TAPE_LEN),
            pointer: 0,
            instruction_pointer: 0,
        }
    }

    /// Appends a freshly parsed batch to the tail of the program, rebasing
    /// the batch's jump targets past the existing instructions so its loops
    /// keep pointing at each other; drains the batch, and touches neither
    /// tape nor pointers. The interactive front end extends a live program
    /// with this.
    pub fn append_instructions(&mut self, instructions: &mut Vec<Instruction>)
        requires
            old(self).wf(),
            batch_wf(instrs_view(old(instructions)@)),
        ensures
            final(self).wf(),
            final(instructions)@ == Seq::<Instruction>::empty(),
            final(self)@ == (ProgramV {
                instructions: old(self)@.instructions + rebased(
                    instrs_view(old(instructions)@),
                    old(self)@.instructions.len(),
                ),
                ..old(self)@
            }),
    {
        let ghost a = old(self)@.instructions;
        let ghost frag = instrs_view(old(instructions)@);
        let base = self.instructions.len();
        self.instructions.append(instructions);
        let total = self.instructions.len();
        let mut k = base;
        while k < total
            invariant
                base <= k <= total,
                total == self.instructions@.len(),
                a == instrs_view(old(self).instructions@),
                frag == instrs_view(old(instructions)@),
                base == a.len(),
                total == a.len() + frag.len(),
                batch_wf(frag),
                forall|i: int|
                    0 <= i < base ==> (#[trigger] self.instructions@[i])@ == a[i],
                forall|i: int|
                    base <= i < k ==> (#[trigger] self.instructions@[i])@ == rebase_instr(
                        frag[i - base],
                        base as nat,
                    ),
                forall|i: int|
                    k <= i < total ==> (#[trigger] self.instructions@[i])@ == frag[i - base],
                self.cells@ == old(self).cells@,
                self.pointer == old(self).pointer,
                self.instruction_pointer == old(self).instruction_pointer,
            decreases total - k,
        {
            let replacement: Option<Instruction> = match &self.instructions[k] {
                Instruction::StartLoop(t) => {
                    match t {
                        Some(n) => Some(Instruction::StartLoop(Some(*n + base))),
                        None => None,
                    }
                },
                Instruction::EndLoop(s) => Some(Instruction::EndLoop(*s + base)),
                _ => None,
            };
            if let Some(x) = replacement {
                self.instructions.set(k, x);
            }
            proof {
                assert((self.instructions@[k as int])@ == rebase_instr(
                    frag[k - base],
                    base as nat,
                ));
            }
            k = k + 1;
        }
        proof {
            assert(instrs_view(self.instructions@) =~= a + rebased(frag, base as nat));
            lemma_append_rebased_wf(a, frag);
            assert(final(self)@ =~= (ProgramV {
                instructions: a + rebased(frag, a.len()),
                ..old(self)@
            }));
        }
    }

    /// The tape contents, for the rendering collaborator.
    pub fn cells(&self) -> (r: &[u8])
        ensures
            r@ == self@.cells,
    {
        self.cells.as_slice()
    }

    /// The data pointer, for the rendering collaborator.
    pub fn pointer(&self) -> (r: usize)
        ensures
            r as nat == self@.pointer,
    {
        self.pointer
    }
}


/// Whether a byte separates command tokens: the blank characters of the
/// source character set.
pub open spec fn is_space(b: u8) -> bool {
    b == 32 || b == 9 || b == 10 || b == 12 || b == 13
}

/// The length of the leading token of `s` (zero at a blank or at the end).
pub open spec fn tok_len(s: Seq<u8>) -> nat
    decreases s.len(),
{
    if s.len() == 0 || is_space(s[0]) {
        0
    } else {
        1 + tok_len(s.skip(1))
    }
}

proof fn lemma_tok_len_le(s: Seq<u8>)
    ensures
        tok_len(s) <= s.len(),
    decreases s.len(),
{
    if s.len() > 0 && !is_space(s[0]) {
        lemma_tok_len_le(s.skip(1));
    }
}

/// A command payload split on blanks into its tokens, in order.
pub open spec fn split_tokens(s: Seq<u8>) -> Seq<Seq<u8>>
    decreases s.len() via split_tokens_decreases
{
    if s.len() == 0 {
        Seq::empty()
    } else if is_space(s[0]) {
        split_tokens(s.skip(1))
    } else {
        seq![s.take(tok_len(s) as int)] + split_tokens(s.skip(tok_len(s) as int))
    }
}

#[via_fn]
proof fn split_tokens_decreases(s: Seq<u8>) {
    lemma_tok_len_le(s);
}

/// A byte with any ASCII capital folded to its small form: how command names
/// are compared.
pub open spec fn lower_byte(b: u8) -> u8 {
    if 65 <= b && b <= 90 {
        (b + 32) as u8
    } else {
        b
    }
}

pub open spec fn lower(s: Seq<u8>) -> Seq<u8> {
    s.map_values(|b: u8| lower_byte(b))
}

/// The `include` command name, as bytes.
pub open spec fn kw_include() -> Seq<u8> {
    seq![105u8, 110u8, 99u8, 108u8, 117u8, 100u8, 101u8]
}

/// The `clear` command name, as bytes.
pub open spec fn kw_clear() -> Seq<u8> {
    seq![99u8, 108u8, 101u8, 97u8, 114u8]
}

/// What a command payload asks for: its first token, compared blind to ASCII
/// case, names the command; the rest are its arguments.
pub enum CommandV {
    Clear,
    Include(Seq<Seq<u8>>),
    Unknown,
}

pub open spec fn command_of(payload: Seq<u8>) -> CommandV {
    let toks = split_tokens(payload);
    if toks.len() == 0 {
        CommandV::Unknown
    } else if lower(toks[0]) == kw_include() {
        CommandV::Include(toks.skip(1))
    } else if lower(toks[0]) == kw_clear() {
        CommandV::Clear
    } else {
        CommandV::Unknown
    }
}

/// Why a run stopped short of its fuel: the program fell off the end, an
/// `Input` instruction wants a byte, an `include` command wants file
/// contents, or an unrecognized command was dispatched.
pub enum PauseV {
    Halted,
    NeedInput,
    NeedFiles(Seq<Seq<u8>>),
    Unsupported(Seq<u8>),
}

/// Whether the machine can dispatch the current instruction by itself, and
/// if not, what it is waiting for.
pub open spec fn pause_of(s: ProgramV) -> Option<PauseV> {
    if s.ip >= s.instructions.len() {
        Some(PauseV::Halted)
    } else {
        match s.instructions[s.ip as int] {
            InstrView::Input => Some(PauseV::NeedInput),
            InstrView::Command(p) => match command_of(p) {
                CommandV::Include(args) => Some(PauseV::NeedFiles(args)),
                CommandV::Unknown => Some(PauseV::Unsupported(p)),
                CommandV::Clear => None,
            },
            _ => None,
        }
    }
}

/// A cell value after a counted increment: true eight-bit wraparound.
pub open spec fn wrap_add(c: u8, n: nat) -> u8 {
    (((c + n) % 256)) as u8
}

/// A cell value after a counted decrement: true eight-bit wraparound.
pub open spec fn wrap_sub(c: u8, n: nat) -> u8 {
    (((c - n) % 256)) as u8
}

/// The tape after a shift to position `p`: grown with zeroed cells to
/// exactly `p + 1` cells when `p` lies past the end, untouched otherwise.
pub open spec fn grow(cells: Seq<u8>, p: nat) -> Seq<u8> {
    if p >= cells.len() {
        cells + Seq::new((p + 1 - cells.len()) as nat, |i: int| 0u8)
    } else {
        cells
    }
}

/// One instruction dispatch from an unpaused state: the next state and the
/// bytes it emits.
pub open spec fn step(s: ProgramV) -> (ProgramV, Seq<u8>)
    recommends
        pause_of(s) is None,
        s.pointer < s.cells.len(),
{
    match s.instructions[s.ip as int] {
        InstrView::Increment(n) => (
            ProgramV {
                cells: s.cells.update(s.pointer as int, wrap_add(s.cells[s.pointer as int], n)),
                ip: s.ip + 1,
                ..s
            },
            Seq::empty(),
        ),
        InstrView::Decrement(n) => (
            ProgramV {
                cells: s.cells.update(s.pointer as int, wrap_sub(s.cells[s.pointer as int], n)),
                ip: s.ip + 1,
                ..s
            },
            Seq::empty(),
        ),
        InstrView::ShiftLeft(n) => (
            ProgramV {
                pointer: if s.pointer < n {
                    0
                } else {
                    (s.pointer - n) as nat
                },
                ip: s.ip + 1,
                ..s
            },
            Seq::empty(),
        ),
        InstrView::ShiftRight(n) => (
            ProgramV { cells: grow(s.cells, s.pointer + n), pointer: s.pointer + n, ip: s.ip + 1, ..s },
            Seq::empty(),
        ),
        InstrView::Output => (ProgramV { ip: s.ip + 1, ..s }, seq![s.cells[s.pointer as int]]),
        InstrView::Input => (s, Seq::empty()),
        InstrView::StartLoop(t) => (
            ProgramV {
                ip: match t {
                    Some(tt) => if s.cells[s.pointer as int] == 0 {
                        tt
                    } else {
                        s.ip + 1
                    },
                    None => s.ip + 1,
                },
                ..s
            },
            Seq::empty(),
        ),
        InstrView::EndLoop(b) => (
            ProgramV {
                ip: if s.cells[s.pointer as int] != 0 {
                    b
                } else {
                    s.ip + 1
                },
                ..s
            },
            Seq::empty(),
        ),
        InstrView::Command(p) => (
            ProgramV { cells: Seq::new(s.cells.len(), |i: int| 0u8), ip: s.ip + 1, ..s },
            seq![13u8],
        ),
    }
}

/// The machine's whole behaviour: the state and the emitted bytes after at
/// most `n` dispatches, stopping early at the first pause. This is the
/// reference semantics every run is proved against.
pub open spec fn run_n(s: ProgramV, n: nat) -> (ProgramV, Seq<u8>)
    decreases n,
{
    if n == 0 || !(pause_of(s) is None) {
        (s, Seq::empty())
    } else {
        let first = step(s);
        let rest = run_n(first.0, (n - 1) as nat);
        (rest.0, first.1 + rest.1)
    }
}

/// The state invariant, on the mathematical side.
pub open spec fn wf_state(s: ProgramV) -> bool {
    &&& s.pointer < s.cells.len()
    &&& batch_wf(s.instructions)
}

/// One dispatch preserves the invariant and never rewrites the program text.
pub proof fn lemma_step_wf(s: ProgramV)
    requires
        wf_state(s),
        pause_of(s) is None,
    ensures
        wf_state(step(s).0),
        step(s).0.instructions == s.instructions,
{
}

/// A paused machine stays paused: fuel beyond the first pause changes
/// nothing.
pub proof fn lemma_run_n_absorb(s: ProgramV, n: nat, m: nat)
    requires
        n <= m,
        !(pause_of(run_n(s, n).0) is None),
    ensures
        run_n(s, m) == run_n(s, n),
    decreases n,
{
    if n == 0 {
        assert(run_n(s, m) == (s, Seq::<u8>::empty()));
    } else if pause_of(s) is None {
        lemma_run_n_absorb(step(s).0, (n - 1) as nat, (m - 1) as nat);
    } else {
        assert(run_n(s, m) == (s, Seq::<u8>::empty()));
    }
}

/// Unrolling one more dispatch at the end of an unpaused prefix.
pub proof fn lemma_run_n_step(s: ProgramV, n: nat)
    requires
        pause_of(run_n(s, n).0) is None,
    ensures
        run_n(s, n + 1).0 == step(run_n(s, n).0).0,
        run_n(s, n + 1).1 == run_n(s, n).1 + step(run_n(s, n).0).1,
    decreases n,
{
    if n == 0 {
        assert(run_n(s, 1).1 =~= step(s).1 + run_n(step(s).0, 0).1);
        assert(run_n(s, n).1 + step(run_n(s, n).0).1 =~= step(s).1);
    } else {
        if pause_of(s) is None {
            lemma_run_n_step(step(s).0, (n - 1) as nat);
            assert(run_n(s, n + 1).1 =~= run_n(s, n).1 + step(run_n(s, n).0).1);
        }
    }
}


/// The byte sequences a vector of byte vectors holds.
pub open spec fn deep_bytes(v: Seq<Vec<u8>>) -> Seq<Seq<u8>> {
    v.map_values(|t: Vec<u8>| t@)
}

/// An owned copy of a byte vector.
fn copy_bytes(v: &Vec<u8>) -> (r: Vec<u8>)
    ensures
        r@ == v@,
{
    let mut out: Vec<u8> = Vec::new();
    let n = v.len();
    let mut i: usize = 0;
    while i < n
        invariant
            i <= n == v@.len(),
            out@ == v@.take(i as int),
        decreases n - i,
    {
        out.push(v[i]);
        proof {
            assert(out@ =~= v@.take(i + 1));
        }
        i = i + 1;
    }
    proof {
        assert(v@.take(n as int) =~= v@);
    }
    out
}

fn is_blank(b: u8) -> (r: bool)
    ensures
        r == is_space(b),
{
    b == 32 || b == 9 || b == 10 || b == 12 || b == 13
}

fn lower_byte_of(b: u8) -> (r: u8)
    ensures
        r == lower_byte(b),
{
    if 65 <= b && b <= 90 {
        b + 32
    } else {
        b
    }
}

/// Splits a command payload on blanks into its tokens, as
/// [`split_tokens`] describes.
fn split_ws(v: &Vec<u8>) -> (r: Vec<Vec<u8>>)
    ensures
        deep_bytes(r@) == split_tokens(v@),
{
    let n = v.len();
    let mut out: Vec<Vec<u8>> = Vec::new();
    let mut i: usize = 0;
    proof {
        assert(v@.skip(0) =~= v@);
        assert(deep_bytes(out@) =~= Seq::<Seq<u8>>::empty());
        assert(Seq::<Seq<u8>>::empty() + split_tokens(v@) =~= split_tokens(v@));
    }
    while i < n
        invariant
            i <= n == v@.len(),
            split_tokens(v@) == deep_bytes(out@) + split_tokens(v@.skip(i as int)),
        decreases n - i,
    {
        if is_blank(v[i]) {
            proof {
                assert(v@.skip(i as int).skip(1) =~= v@.skip(i as int + 1));
            }
            i = i + 1;
        } else {
            let ghost start0 = i as int;
            let start = i;
            let mut cur: Vec<u8> = Vec::new();
            proof {
                assert(cur@ =~= v@.subrange(start0, start0));
            }
            loop
                invariant
                    start0 == start as int,
                    start <= i <= n,
                    n == v@.len(),
                    start < n,
                    !is_space(v@[start0]),
                    cur@ == v@.subrange(start0, i as int),
                    tok_len(v@.skip(start0)) == (i - start) + tok_len(v@.skip(i as int)),
                ensures
                    start <= i <= n,
                    cur@ == v@.subrange(start0, i as int),
                    tok_len(v@.skip(start0)) == i - start,
                decreases n - i,
            {
                if i >= n {
                    proof {
                        assert(v@.skip(i as int) =~= Seq::<u8>::empty());
                        assert(tok_len(v@.skip(i as int)) == 0);
                    }
                    break ;
                }
                let b = v[i];
                if is_blank(b) {
                    proof {
                        assert(v@.skip(i as int)[0] == v@[i as int]);
                        assert(tok_len(v@.skip(i as int)) == 0);
                    }
                    break ;
                }
                cur.push(b);
                proof {
                    assert(cur@ =~= v@.subrange(start0, i + 1));
                    assert(v@.skip(i as int)[0] == v@[i as int]);
                    assert(v@.skip(i as int).skip(1) =~= v@.skip(i + 1));
                }
                i = i + 1;
            }
            let ghost prev = deep_bytes(out@);
            let ghost s = v@.skip(start0);
            proof {
                assert(s.len() > 0 && !is_space(s[0]));
                assert(s.take(tok_len(s) as int) =~= v@.subrange(start0, i as int));
                assert(s.skip(tok_len(s) as int) =~= v@.skip(i as int));
                assert(split_tokens(s) == seq![cur@] + split_tokens(v@.skip(i as int)));
            }
            out.push(cur);
            proof {
                assert(deep_bytes(out@) =~= prev.push(s.take(tok_len(s) as int)));
                assert(prev.push(s.take(tok_len(s) as int)) =~= prev + seq![
                    s.take(tok_len(s) as int),
                ]);
                assert((prev + seq![s.take(tok_len(s) as int)]) + split_tokens(v@.skip(i as int))
                    =~= prev + (seq![s.take(tok_len(s) as int)] + split_tokens(v@.skip(i as int))));
            }
        }
    }
    proof {
        assert(v@.skip(n as int) =~= Seq::<u8>::empty());
        assert(split_tokens(v@.skip(n as int)) == Seq::<Seq<u8>>::empty());
        assert(deep_bytes(out@) + Seq::<Seq<u8>>::empty() =~= deep_bytes(out@));
    }
    out
}

/// Whether a token names the `include` command, blind to ASCII case.
fn is_include_name(t: &Vec<u8>) -> (r: bool)
    ensures
        r == (lower(t@) == kw_include()),
{
    proof {
        assert(lower(t@).len() == t@.len());
        assert(kw_include().len() == 7);
        assert(forall|k: int| 0 <= k < t@.len() ==> lower(t@)[k] == lower_byte(t@[k]));
    }
    if t.len() != 7 {
        return false;
    }
    let r = lower_byte_of(t[0]) == 105 && lower_byte_of(t[1]) == 110 && lower_byte_of(t[2]) == 99
        && lower_byte_of(t[3]) == 108 && lower_byte_of(t[4]) == 117 && lower_byte_of(t[5]) == 100
        && lower_byte_of(t[6]) == 101;
    proof {
        if r {
            assert(lower(t@) =~= kw_include());
        }
    }
    r
}

/// Whether a token names the `clear` command, blind to ASCII case.
fn is_clear_name(t: &Vec<u8>) -> (r: bool)
    ensures
        r == (lower(t@) == kw_clear()),
{
    proof {
        assert(lower(t@).len() == t@.len());
        assert(kw_clear().len() == 5);
        assert(forall|k: int| 0 <= k < t@.len() ==> lower(t@)[k] == lower_byte(t@[k]));
    }
    if t.len() != 5 {
        return false;
    }
    let r = lower_byte_of(t[0]) == 99 && lower_byte_of(t[1]) == 108 && lower_byte_of(t[2]) == 101
        && lower_byte_of(t[3]) == 97 && lower_byte_of(t[4]) == 114;
    proof {
        if r {
            assert(lower(t@) =~= kw_clear());
        }
    }
    r
}

/// Adds `by` to the cell at `p`, wrapping modulo the cell width.
fn cell_add(cells: &mut Vec<u8>, p: usize, by: usize)
    requires
        p < old(cells)@.len(),
    ensures
        final(cells)@ == old(cells)@.update(p as int, wrap_add(old(cells)@[p as int], by as nat)),
{
    let c = cells[p];
    let add16: u16 = (by % 256) as u16;
    let w: u8 = (((c as u16) + add16) % 256) as u8;
    proof {
        vstd::arithmetic::div_mod::lemma_small_mod(c as nat, 256);
        vstd::arithmetic::div_mod::lemma_add_mod_noop(c as int, by as int, 256);
        assert(w == wrap_add(c, by as nat));
    }
    cells.set(p, w);
}

/// Subtracts `by` from the cell at `p`, wrapping modulo the cell width.
fn cell_sub(cells: &mut Vec<u8>, p: usize, by: usize)
    requires
        p < old(cells)@.len(),
    ensures
        final(cells)@ == old(cells)@.update(p as int, wrap_sub(old(cells)@[p as int], by as nat)),
{
    let c = cells[p];
    let sub16: u16 = (by % 256) as u16;
    let w: u8 = ((((c as u16) + 256) - sub16) % 256) as u8;
    proof {
        vstd::arithmetic::div_mod::lemma_small_mod(c as nat, 256);
        vstd::arithmetic::div_mod::lemma_sub_mod_noop(c as int, by as int, 256);
        vstd::arithmetic::div_mod::lemma_mod_add_multiples_vanish(
            c as int - (by as int % 256),
            256,
        );
        assert(w == wrap_sub(c, by as nat));
    }
    cells.set(p, w);
}

/// Zeroes every cell, keeping the tape length.
fn clear_cells(cells: &mut Vec<u8>)
    ensures
        final(cells)@ == Seq::new(old(cells)@.len(), |i: int| 0u8),
{
    let n = cells.len();
    let mut k: usize = 0;
    while k < n
        invariant
            k <= n == cells@.len(),
            cells@.len() == old(cells)@.len(),
            forall|i: int| 0 <= i < k ==> cells@[i] == 0u8,
            forall|i: int| k <= i < n ==> cells@[i] == old(cells)@[i],
        decreases n - k,
    {
        cells.set(k, 0);
        k = k + 1;
    }
    proof {
        assert(cells@ =~= Seq::new(old(cells)@.len(), |i: int| 0u8));
    }
}

/// Grows the tape with zeroed cells to exactly `p + 1` cells when `p` lies
/// past the end.
fn grow_cells(cells: &mut Vec<u8>, p: usize)
    requires
        p < usize::MAX,
    ensures
        final(cells)@ == grow(old(cells)@, p as nat),
{
    if p >= cells.len() {
        let target = p + 1;
        while cells.len() < target
            invariant
                old(cells)@.len() <= cells@.len() <= target,
                cells@.take(old(cells)@.len() as int) == old(cells)@,
                forall|i: int| old(cells)@.len() <= i < cells@.len() ==> cells@[i] == 0u8,
            decreases target - cells@.len(),
        {
            cells.push(0);
            proof {
                assert(cells@.take(old(cells)@.len() as int) =~= old(cells)@);
            }
        }
        proof {
            assert(cells@ =~= grow(old(cells)@, p as nat));
        }
    }
}


/// A state whose next dispatch is a right shift past what the machine's
/// addresses can hold: the one machine limit a run can stop on.
pub open spec fn overflow_stop(s: ProgramV) -> bool {
    &&& pause_of(s) is None
    &&& match s.instructions[s.ip as int] {
        InstrView::ShiftRight(m) => s.pointer + m + 1 > usize::MAX,
        _ => false,
    }
}

/// What a call to [`Program::run`] ended with. `Running` means the fuel was
/// spent with the machine still able to dispatch: call again to continue.
/// The other outcomes are pauses: `Halted` (instruction pointer past the
/// end; append more instructions to resume), `NeedInput` (feed one byte with
/// [`Program::provide_input`]), `NeedFiles` (feed the named files' contents
/// with [`Program::provide_files`]), `Unsupported` (an unrecognized command,
/// fatal, with its full text), and `TapeOverflow` (a shift would push the
/// data pointer past what this machine can address).
#[derive(Debug, PartialEq, Eq)]
pub enum RunStatus {
    Halted,
    NeedInput,
    NeedFiles(Vec<Vec<u8>>),
    Unsupported(Vec<u8>),
    Running,
    TapeOverflow,
}

impl Program {
    /// Whether the machine is paused at its current instruction, and on
    /// what, exactly as [`pause_of`] says; an `include` pause carries the
    /// file arguments and an unsupported command its full text.
    fn check_pause(&self) -> (r: Option<RunStatus>)
        requires
            self.wf(),
        ensures
            match r {
                Some(st) => match st {
                    RunStatus::Halted => pause_of(self@) == Some(PauseV::Halted),
                    RunStatus::NeedInput => pause_of(self@) == Some(PauseV::NeedInput),
                    RunStatus::NeedFiles(args) => pause_of(self@) == Some(
                        PauseV::NeedFiles(deep_bytes(args@)),
                    ),
                    RunStatus::Unsupported(text) => pause_of(self@) == Some(
                        PauseV::Unsupported(text@),
                    ),
                    RunStatus::Running => false,
                    RunStatus::TapeOverflow => false,
                },
                None => pause_of(self@) is None,
            },
    {
        let ip = self.instruction_pointer;
        if ip >= self.instructions.len() {
            return Some(RunStatus::Halted);
        }
        proof {
            assert((self.instructions@[ip as int])@ == self@.instructions[ip as int]);
        }
        match &self.instructions[ip] {
            Instruction::Input => Some(RunStatus::NeedInput),
            Instruction::Command(text) => {
                let payload = copy_bytes(text);
                let mut toks = split_ws(&payload);
                if toks.len() == 0 {
                    proof {
                        assert(command_of(payload@) == CommandV::Unknown);
                    }
                    return Some(RunStatus::Unsupported(payload));
                }
                proof {
                    assert(deep_bytes(toks@)[0] == toks@[0]@);
                }
                let inc = is_include_name(&toks[0]);
                let clr = is_clear_name(&toks[0]);
                if inc {
                    let _name = toks.remove(0);
                    proof {
                        assert(deep_bytes(toks@) =~= split_tokens(payload@).skip(1));
                        assert(command_of(payload@) == CommandV::Include(
                            split_tokens(payload@).skip(1),
                        ));
                    }
                    Some(RunStatus::NeedFiles(toks))
                } else if clr {
                    proof {
                        assert(command_of(payload@) == CommandV::Clear);
                    }
                    None
                } else {
                    proof {
                        assert(command_of(payload@) == CommandV::Unknown);
                    }
                    Some(RunStatus::Unsupported(payload))
                }
            },
            _ => None,
        }
    }

    /// Dispatches one counted increment.
    fn exec_increment(&mut self, by: usize)
        requires
            old(self).wf(),
            pause_of(old(self)@) is None,
            old(self)@.ip < old(self)@.instructions.len(),
            old(self)@.instructions[old(self)@.ip as int] == InstrView::Increment(by as nat),
        ensures
            final(self).wf(),
            final(self)@ == step(old(self)@).0,
            step(old(self)@).1 == Seq::<u8>::empty(),
    {
        let ip = self.instruction_pointer;
        let n = self.instructions.len();
        proof {
            lemma_step_wf(old(self)@);
            assert(ip < n);
        }
        cell_add(&mut self.cells, self.pointer, by);
        self.instruction_pointer = ip + 1;
        proof {
            assert(self@ =~= step(old(self)@).0);
        }
    }

    /// Dispatches one counted decrement.
    fn exec_decrement(&mut self, by: usize)
        requires
            old(self).wf(),
            pause_of(old(self)@) is None,
            old(self)@.ip < old(self)@.instructions.len(),
            old(self)@.instructions[old(self)@.ip as int] == InstrView::Decrement(by as nat),
        ensures
            final(self).wf(),
            final(self)@ == step(old(self)@).0,
            step(old(self)@).1 == Seq::<u8>::empty(),
    {
        let ip = self.instruction_pointer;
        let n = self.instructions.len();
        proof {
            lemma_step_wf(old(self)@);
            assert(ip < n);
        }
        cell_sub(&mut self.cells, self.pointer, by);
        self.instruction_pointer = ip + 1;
        proof {
            assert(self@ =~= step(old(self)@).0);
        }
    }

    /// Dispatches one counted left shift, clamping at the left edge.
    fn exec_shift_left(&mut self, by: usize)
        requires
            old(self).wf(),
            pause_of(old(self)@) is None,
            old(self)@.ip < old(self)@.instructions.len(),
            old(self)@.instructions[old(self)@.ip as int] == InstrView::ShiftLeft(by as nat),
        ensures
            final(self).wf(),
            final(self)@ == step(old(self)@).0,
            step(old(self)@).1 == Seq::<u8>::empty(),
    {
        let ip = self.instruction_pointer;
        let n = self.instructions.len();
        proof {
            lemma_step_wf(old(self)@);
            assert(ip < n);
        }
        if self.pointer < by {
            self.pointer = 0;
        } else {
            self.pointer = self.pointer - by;
        }
        self.instruction_pointer = ip + 1;
        proof {
            assert(self@ =~= step(old(self)@).0);
        }
    }

    /// Dispatches one counted right shift, growing the tape first; reports
    /// `false`, touching nothing, when the new pointer cannot be addressed.
    fn exec_shift_right(&mut self, by: usize) -> (ok: bool)
        requires
            old(self).wf(),
            pause_of(old(self)@) is None,
            old(self)@.ip < old(self)@.instructions.len(),
            old(self)@.instructions[old(self)@.ip as int] == InstrView::ShiftRight(by as nat),
        ensures
            final(self).wf(),
            ok ==> final(self)@ == step(old(self)@).0 && step(old(self)@).1 == Seq::<u8>::empty(),
            !ok ==> final(self)@ == old(self)@ && overflow_stop(old(self)@),
    {
        let ip = self.instruction_pointer;
        let n = self.instructions.len();
        proof {
            assert(ip < n);
        }
        if self.pointer >= usize::MAX - by {
            proof {
                assert(overflow_stop(self@));
            }
            return false;
        }
        proof {
            lemma_step_wf(old(self)@);
        }
        let np = self.pointer + by;
        grow_cells(&mut self.cells, np);
        self.pointer = np;
        self.instruction_pointer = ip + 1;
        proof {
            assert(self@ =~= step(old(self)@).0);
        }
        true
    }

    /// Dispatches one `Output`, appending the current cell to `output`.
    fn exec_output(&mut self, output: &mut Vec<u8>)
        requires
            old(self).wf(),
            pause_of(old(self)@) is None,
            old(self)@.ip < old(self)@.instructions.len(),
            old(self)@.instructions[old(self)@.ip as int] == InstrView::Output,
        ensures
            final(self).wf(),
            final(self)@ == step(old(self)@).0,
            final(output)@ == old(output)@ + step(old(self)@).1,
    {
        let ip = self.instruction_pointer;
        let n = self.instructions.len();
        proof {
            lemma_step_wf(old(self)@);
            assert(ip < n);
        }
        let cell = self.cells[self.pointer];
        output.push(cell);
        self.instruction_pointer = ip + 1;
        proof {
            assert(self@ =~= step(old(self)@).0);
            assert(output@ =~= old(output)@ + step(old(self)@).1);
        }
    }

    /// Dispatches one resolved `StartLoop`: jumps past the loop when the
    /// current cell is zero, else falls into the body.
    fn exec_start_loop(&mut self, target: usize)
        requires
            old(self).wf(),
            pause_of(old(self)@) is None,
            old(self)@.ip < old(self)@.instructions.len(),
            old(self)@.instructions[old(self)@.ip as int] == InstrView::StartLoop(
                Some(target as nat),
            ),
        ensures
            final(self).wf(),
            final(self)@ == step(old(self)@).0,
            step(old(self)@).1 == Seq::<u8>::empty(),
    {
        let ip = self.instruction_pointer;
        let n = self.instructions.len();
        proof {
            lemma_step_wf(old(self)@);
            assert(ip < n);
        }
        if self.cells[self.pointer] == 0 {
            self.instruction_pointer = target;
        } else {
            self.instruction_pointer = ip + 1;
        }
        proof {
            assert(self@ =~= step(old(self)@).0);
        }
    }

    /// Dispatches one `EndLoop`: jumps back to the loop head when the
    /// current cell is nonzero, so the condition is tested again.
    fn exec_end_loop(&mut self, back: usize)
        requires
            old(self).wf(),
            pause_of(old(self)@) is None,
            old(self)@.ip < old(self)@.instructions.len(),
            old(self)@.instructions[old(self)@.ip as int] == InstrView::EndLoop(back as nat),
        ensures
            final(self).wf(),
            final(self)@ == step(old(self)@).0,
            step(old(self)@).1 == Seq::<u8>::empty(),
    {
        let ip = self.instruction_pointer;
        let n = self.instructions.len();
        proof {
            lemma_step_wf(old(self)@);
            assert(ip < n);
        }
        if self.cells[self.pointer] != 0 {
            self.instruction_pointer = back;
        } else {
            self.instruction_pointer = ip + 1;
        }
        proof {
            assert(self@ =~= step(old(self)@).0);
        }
    }

    /// Dispatches the `clear` command: zeroes every cell and emits the
    /// carriage-return byte, the display-reset convention.
    fn exec_clear(&mut self, output: &mut Vec<u8>)
        requires
            old(self).wf(),
            pause_of(old(self)@) is None,
            old(self)@.ip < old(self)@.instructions.len(),
            old(self)@.instructions[old(self)@.ip as int] matches InstrView::Command(_),
        ensures
            final(self).wf(),
            final(self)@ == step(old(self)@).0,
            final(output)@ == old(output)@ + step(old(self)@).1,
    {
        let ip = self.instruction_pointer;
        let n = self.instructions.len();
        proof {
            lemma_step_wf(old(self)@);
            assert(ip < n);
        }
        clear_cells(&mut self.cells);
        output.push(13);
        self.instruction_pointer = ip + 1;
        proof {
            assert(self@.cells =~= step(old(self)@).0.cells);
            assert(self@ =~= step(old(self)@).0);
            assert(output@ =~= old(output)@ + step(old(self)@).1);
        }
    }

    /// Dispatches exactly the current instruction, as the one-step semantics
    /// [`step`] describes, appending whatever it emits to `output`; reports
    /// `false`, leaving everything untouched, when the dispatch would shift
    /// the data pointer past the machine's addresses.
    fn step_once(&mut self, output: &mut Vec<u8>) -> (ok: bool)
        requires
            old(self).wf(),
            pause_of(old(self)@) is None,
        ensures
            final(self).wf(),
            ok ==> final(self)@ == step(old(self)@).0 && final(output)@ == old(output)@ + step(
                old(self)@,
            ).1,
            !ok ==> final(self)@ == old(self)@ && final(output)@ == old(output)@ && overflow_stop(
                old(self)@,
            ),
    {
        let ip = self.instruction_pointer;
        proof {
            assert(ip < self.instructions@.len());
            assert((self.instructions@[ip as int])@ == old(self)@.instructions[ip as int]);
        }
        let decoded: Instruction = match &self.instructions[ip] {
            Instruction::Increment(by) => Instruction::Increment(*by),
            Instruction::Decrement(by) => Instruction::Decrement(*by),
            Instruction::ShiftLeft(by) => Instruction::ShiftLeft(*by),
            Instruction::ShiftRight(by) => Instruction::ShiftRight(*by),
            Instruction::Output => Instruction::Output,
            Instruction::Input => Instruction::Input,
            Instruction::StartLoop(t) => Instruction::StartLoop(*t),
            Instruction::EndLoop(back) => Instruction::EndLoop(*back),
            Instruction::Command(_) => Instruction::Command(Vec::new()),
        };
        match decoded {
            Instruction::Increment(by) => {
                self.exec_increment(by);
                proof {
                    assert(final(output)@ =~= old(output)@ + step(old(self)@).1);
                }
                true
            },
            Instruction::Decrement(by) => {
                self.exec_decrement(by);
                proof {
                    assert(final(output)@ =~= old(output)@ + step(old(self)@).1);
                }
                true
            },
            Instruction::ShiftLeft(by) => {
                self.exec_shift_left(by);
                proof {
                    assert(final(output)@ =~= old(output)@ + step(old(self)@).1);
                }
                true
            },
            Instruction::ShiftRight(by) => {
                let ok = self.exec_shift_right(by);
                proof {
                    if ok {
                        assert(final(output)@ =~= old(output)@ + step(old(self)@).1);
                    }
                }
                ok
            },
            Instruction::Output => {
                self.exec_output(output);
                true
            },
            Instruction::Input => {
                proof {
                    assert(false);
                }
                vstd::pervasive::unreached::<bool>()
            },
            Instruction::StartLoop(t) => {
                match t {
                    Some(target) => {
                        self.exec_start_loop(target);
                        proof {
                            assert(final(output)@ =~= old(output)@ + step(old(self)@).1);
                        }
                        true
                    },
                    None => {
                        proof {
                            assert(false);
                        }
                        vstd::pervasive::unreached::<bool>()
                    },
                }
            },
            Instruction::EndLoop(back) => {
                self.exec_end_loop(back);
                proof {
                    assert(final(output)@ =~= old(output)@ + step(old(self)@).1);
                }
                true
            },
            Instruction::Command(_) => {
                self.exec_clear(output);
                true
            },
        }
    }

    /// Dispatches at most `fuel` instructions, mutating tape and pointers
    /// and appending every emitted byte to `output`, and reports why it
    /// stopped. The machine's trajectory is exactly the reference semantics
    /// [`run_n`]: except on `TapeOverflow`, the final state and the emitted
    /// bytes equal `run_n` of the starting state with this fuel, and the
    /// result tells precisely how that state pauses (or does not). A halted
    /// or otherwise paused machine is left as it stands, so calling again is
    /// harmless and resumes cleanly once instructions, input or files are
    /// supplied.
    #[verifier::rlimit(100)]
    pub fn run(&mut self, output: &mut Vec<u8>, fuel: usize) -> (r: RunStatus)
        requires
            old(self).wf(),
        ensures
            final(self).wf(),
            final(self)@.instructions == old(self)@.instructions,
            match r {
                RunStatus::TapeOverflow => (exists|n: nat|
                    #![trigger run_n(old(self)@, n)]
                    n < fuel && run_n(old(self)@, n).0 == final(self)@ && final(output)@ == (old(
                        output,
                    )@ + run_n(old(self)@, n).1) && overflow_stop(final(self)@)),
                _ => {
                    &&& final(self)@ == run_n(old(self)@, fuel as nat).0
                    &&& final(output)@ == old(output)@ + run_n(old(self)@, fuel as nat).1
                    &&& match r {
                        RunStatus::Halted => pause_of(final(self)@) == Some(PauseV::Halted),
                        RunStatus::NeedInput => pause_of(final(self)@) == Some(PauseV::NeedInput),
                        RunStatus::NeedFiles(args) => pause_of(final(self)@) == Some(
                            PauseV::NeedFiles(deep_bytes(args@)),
                        ),
                        RunStatus::Unsupported(text) => pause_of(final(self)@) == Some(
                            PauseV::Unsupported(text@),
                        ),
                        RunStatus::Running => pause_of(final(self)@) is None,
                        RunStatus::TapeOverflow => false,
                    }
                },
            },
    {
        let ghost s0 = old(self)@;
        let ghost out0 = old(output)@;
        let mut used: usize = 0;
        proof {
            assert(output@ =~= out0 + run_n(s0, 0).1);
        }
        loop
            invariant
                s0 == old(self)@,
                out0 == old(output)@,
                wf_state(s0),
                self.wf(),
                used <= fuel,
                self@ == run_n(s0, used as nat).0,
                self@.instructions == s0.instructions,
                output@ == out0 + run_n(s0, used as nat).1,
            decreases fuel - used,
        {
            let ghost pre = self@;
            match self.check_pause() {
                Some(st) => {
                    proof {
                        lemma_run_n_absorb(s0, used as nat, fuel as nat);
                        assert(run_n(s0, fuel as nat) == run_n(s0, used as nat));
                        assert(self@ == run_n(s0, fuel as nat).0);
                        assert(output@ == out0 + run_n(s0, fuel as nat).1);
                    }
                    return st;
                },
                None => {},
            }
            if used >= fuel {
                proof {
                    assert(used == fuel);
                    assert(pause_of(self@) is None);
                }
                return RunStatus::Running;
            }
            if !self.step_once(output) {
                proof {
                    assert(used < fuel);
                    assert(run_n(s0, used as nat).0 == self@);
                    assert(output@ == out0 + run_n(s0, used as nat).1);
                    assert(overflow_stop(self@));
                }
                return RunStatus::TapeOverflow;
            }
            proof {
                lemma_step_wf(pre);
                lemma_run_n_step(s0, used as nat);
                assert((out0 + run_n(s0, used as nat).1) + step(pre).1 =~= out0 + (run_n(
                    s0,
                    used as nat,
                ).1 + step(pre).1));
            }
            used = used + 1;
        }
    }

    /// Stores one input byte into the current cell and moves past the
    /// `Input` instruction that was waiting for it.
    pub fn provide_input(&mut self, b: u8)
        requires
            old(self).wf(),
            pause_of(old(self)@) == Some(PauseV::NeedInput),
        ensures
            final(self).wf(),
            final(self)@ == (ProgramV {
                cells: old(self)@.cells.update(old(self)@.pointer as int, b),
                ip: old(self)@.ip + 1,
                ..old(self)@
            }),
    {
        let n = self.instructions.len();
        proof {
            assert(self.instruction_pointer < n);
        }
        self.cells.set(self.pointer, b);
        self.instruction_pointer = self.instruction_pointer + 1;
        proof {
            assert(self@ =~= (ProgramV {
                cells: old(self)@.cells.update(old(self)@.pointer as int, b),
                ip: old(self)@.ip + 1,
                ..old(self)@
            }));
        }
    }
}


/// The byte contents each file argument resolved to: `None` for a file that
/// could not be read (tolerated and skipped), `Some` of its bytes otherwise.
pub open spec fn files_view(v: Seq<Option<Vec<u8>>>) -> Seq<Option<Seq<u8>>> {
    v.map_values(
        |f: Option<Vec<u8>>|
            match f {
                Some(b) => Some(b@),
                None => None::<Seq<u8>>,
            },
    )
}

/// The instruction fragment one file contributes: its bytes parsed in
/// `Normal` mode; nothing for an unreadable file.
pub open spec fn frag_of(file: Option<Seq<u8>>) -> Seq<InstrView> {
    match file {
        None => Seq::empty(),
        Some(b) => match parse_spec(b, ParserMode::Normal) {
            Ok(f) => f,
            Err(_) => Seq::empty(),
        },
    }
}

/// The program text after every file's fragment is appended in argument
/// order, each rebased to the then-current tail.
pub open spec fn with_included(
    instrs: Seq<InstrView>,
    files: Seq<Option<Seq<u8>>>,
) -> Seq<InstrView>
    decreases files.len(),
{
    if files.len() == 0 {
        instrs
    } else {
        with_included(instrs + rebased(frag_of(files[0]), instrs.len()), files.skip(1))
    }
}

/// Whether every readable file parses.
pub open spec fn all_parse_ok(files: Seq<Option<Seq<u8>>>) -> bool {
    forall|i: int|
        0 <= i < files.len() ==> match #[trigger] files[i] {
            Some(b) => parse_spec(b, ParserMode::Normal) is Ok,
            None => true,
        }
}

impl Program {
    /// Answers a `NeedFiles` pause: parses each readable file's contents in
    /// `Normal` mode and appends every fragment, in argument order, to the
    /// tail of the running program, then moves past the `include` command.
    /// An entry of `None` stands for a file that could not be read and is
    /// skipped. If any file fails to parse, nothing changes and its
    /// structural error comes back: no partial program reaches execution.
    pub fn provide_files(&mut self, contents: Vec<Option<Vec<u8>>>) -> (r: Result<(), ParseError>)
        requires
            old(self).wf(),
            pause_of(old(self)@) matches Some(PauseV::NeedFiles(_)),
        ensures
            final(self).wf(),
            match r {
                Ok(_) => all_parse_ok(files_view(contents@)) && final(self)@ == (ProgramV {
                    instructions: with_included(
                        old(self)@.instructions,
                        files_view(contents@),
                    ),
                    ip: old(self)@.ip + 1,
                    ..old(self)@
                }),
                Err(e) => !all_parse_ok(files_view(contents@)) && final(self)@ == old(self)@ && (
                exists|i: int|
                    0 <= i < files_view(contents@).len() && ((#[trigger] files_view(
                        contents@,
                    )[i]) matches Some(b) && parse_spec(b, ParserMode::Normal) == Err::<
                        Seq<InstrView>,
                        ParseError,
                    >(e))),
            },
    {
        let ghost fv = files_view(contents@);
        let m = contents.len();
        let mut parsed: Vec<Vec<Instruction>> = Vec::new();
        let mut i: usize = 0;
        while i < m
            invariant
                self.wf(),
                self@ == old(self)@,
                i <= m == contents@.len(),
                fv == files_view(contents@),
                fv.len() == contents@.len(),
                parsed@.len() == i,
                forall|k: int|
                    0 <= k < i ==> frag_of(fv[k]) == instrs_view((#[trigger] parsed@[k])@)
                        && batch_wf(instrs_view(parsed@[k]@)),
                forall|k: int|
                    0 <= k < i ==> match #[trigger] fv[k] {
                        Some(b) => parse_spec(b, ParserMode::Normal) is Ok,
                        None => true,
                    },
            decreases m - i,
        {
            proof {
                assert(fv[i as int] == match contents@[i as int] {
                    Some(b) => Some(b@),
                    None => None::<Seq<u8>>,
                });
            }
            match &contents[i] {
                None => {
                    parsed.push(Vec::new());
                    proof {
                        assert(instrs_view(parsed@[i as int]@) =~= Seq::<InstrView>::empty());
                        assert(batch_wf(Seq::<InstrView>::empty()));
                    }
                },
                Some(buf) => {
                    match Parser::parse(Lexer::new(buf.as_slice()), ParserMode::Normal) {
                        Ok(v) => {
                            parsed.push(v);
                        },
                        Err(e) => {
                            proof {
                                assert((fv[i as int] matches Some(b) && parse_spec(
                                    b,
                                    ParserMode::Normal,
                                ) == Err::<Seq<InstrView>, ParseError>(e)));
                            }
                            return Err(e);
                        },
                    }
                },
            }
            i = i + 1;
        }
        let ghost instrs0 = self@.instructions;
        let ghost parsed0 = parsed@;
        proof {
            assert(fv.skip(0) =~= fv);
        }
        let mut k: usize = 0;
        while k < m
            invariant
                k <= m,
                m == fv.len(),
                parsed@ =~= parsed0.skip(k as int),
                parsed0.len() == m,
                forall|j: int|
                    0 <= j < m ==> frag_of(fv[j]) == instrs_view((#[trigger] parsed0[j])@)
                        && batch_wf(instrs_view(parsed0[j]@)),
                self.wf(),
                with_included(instrs0, fv) == with_included(
                    self@.instructions,
                    fv.skip(k as int),
                ),
                self@.cells == old(self)@.cells,
                self@.pointer == old(self)@.pointer,
                self@.ip == old(self)@.ip,
            decreases m - k,
        {
            let ghost before = self@.instructions;
            let mut frag = parsed.remove(0);
            proof {
                assert(parsed0.skip(k as int)[0] == parsed0[k as int]);
                assert(instrs_view(frag@) == frag_of(fv[k as int]));
                assert(parsed@ =~= parsed0.skip(k as int + 1));
            }
            self.append_instructions(&mut frag);
            proof {
                assert(fv.skip(k as int)[0] == fv[k as int]);
                assert(fv.skip(k as int).skip(1) =~= fv.skip(k as int + 1));
                assert(with_included(before, fv.skip(k as int)) == with_included(
                    before + rebased(frag_of(fv[k as int]), before.len()),
                    fv.skip(k as int + 1),
                ));
            }
            k = k + 1;
        }
        proof {
            assert(fv.skip(m as int) =~= Seq::<Option<Seq<u8>>>::empty());
            assert(with_included(self@.instructions, fv.skip(m as int)) == self@.instructions);
        }
        let n = self.instructions.len();
        proof {
            assert(old(self)@.ip < old(self)@.instructions.len());
            assert(self@.instructions.len() >= old(self)@.instructions.len()) by {
                lemma_with_included_grows(instrs0, fv);
            }
            assert(self.instruction_pointer < n);
        }
        self.instruction_pointer = self.instruction_pointer + 1;
        proof {
            assert(self@ =~= (ProgramV {
                instructions: with_included(old(self)@.instructions, files_view(contents@)),
                ip: old(self)@.ip + 1,
                ..old(self)@
            }));
        }
        Ok(())
    }
}

/// Including files never shortens the program.
pub proof fn lemma_with_included_grows(instrs: Seq<InstrView>, files: Seq<Option<Seq<u8>>>)
    ensures
        with_included(instrs, files).len() >= instrs.len(),
    decreases files.len(),
{
    if files.len() > 0 {
        lemma_with_included_grows(
            instrs + rebased(frag_of(files[0]), instrs.len()),
            files.skip(1),
        );
    }
}


/// The growth law: dispatching a right shift that passes the current tape
/// bound grows the tape to exactly `pointer + n + 1` cells, zero-filling the
/// new cells and losing no existing one, and only then advances the pointer,
/// which therefore never leaves the tape.
pub proof fn lemma_shift_right_growth(s: ProgramV, n: nat)
    requires
        wf_state(s),
        s.ip < s.instructions.len(),
        s.instructions[s.ip as int] == InstrView::ShiftRight(n),
        s.pointer + n >= s.cells.len(),
    ensures
        step(s).0.pointer == s.pointer + n,
        step(s).0.cells.len() == s.pointer + n + 1,
        forall|i: int| 0 <= i < s.cells.len() ==> step(s).0.cells[i] == s.cells[i],
        forall|i: int|
            s.cells.len() <= i < step(s).0.cells.len() ==> step(s).0.cells[i] == 0u8,
{
}

/// The clamp law: dispatching a left shift that would pass the left edge
/// sets the data pointer to zero rather than failing; a shift that fits
/// moves back exactly `n`. The tape itself is untouched.
pub proof fn lemma_shift_left_clamp(s: ProgramV, n: nat)
    requires
        wf_state(s),
        s.ip < s.instructions.len(),
        s.instructions[s.ip as int] == InstrView::ShiftLeft(n),
    ensures
        s.pointer < n ==> step(s).0.pointer == 0,
        s.pointer >= n ==> step(s).0.pointer == s.pointer - n,
        step(s).0.cells == s.cells,
{
}

/// The wrap policy, pinned to one reference point: a cell holding 254,
/// incremented by 2, becomes 0 under true eight-bit wraparound.
pub proof fn lemma_wrap_policy()
    ensures
        wrap_add(254, 2) == 0,
        wrap_sub(0, 1) == 255,
{
}

} // verus!
