//! Lexing and parsing: a cursor over raw source bytes that yields only
//! recognized operator characters, and a parser that collapses runs of
//! identical movement/arithmetic operators into counted instructions and
//! resolves loop brackets into both-direction jump targets.
use vstd::prelude::*;
use vstd::pervasive::VecAdditionalExecFns;

use crate::instruction::{batch_wf, counts_positive, instrs_view, InstrView, Instruction};

verus! {

/// A structural failure of the bracket grammar, detected before any
/// instruction vector is handed out.
#[derive(Debug, Clone, Copy, PartialEq, Eq)]
pub enum ParseError {
    /// A `]` arrived with no open `[` to match it.
    UnmatchedClose,
    /// A `[` was still open when the input ended.
    UnmatchedOpen,
}

/// Whether a byte is one of the recognized operator characters
/// `> < + - . , [ ]`, or the command marker `#`, which is always a token at
/// the lexing layer; the parser ignores it outside of command mode.
pub open spec fn is_token_byte(b: u8) -> bool {
    b == 62 || b == 60 || b == 43 || b == 45 || b == 46 || b == 44 || b == 91 || b == 93 || b
        == 35
}

/// Whether a byte is a movement/arithmetic operator `> < + -`, subject to
/// run-length collapsing.
pub open spec fn is_arith_byte(b: u8) -> bool {
    b == 62 || b == 60 || b == 43 || b == 45
}

/// The position of the first operator byte at or after `i`, if any.
pub open spec fn tok_at(buf: Seq<u8>, i: nat) -> Option<nat>
    decreases buf.len() - i when i <= buf.len()
{
    if i >= buf.len() {
        None
    } else if is_token_byte(buf[i as int]) {
        Some(i)
    } else {
        tok_at(buf, i + 1)
    }
}

/// How many further tokens equal to `c` continue the run that begins before
/// `i`; non-operator bytes in between are transparent, and any other operator
/// byte ends the run.
pub open spec fn run_len(buf: Seq<u8>, c: u8, i: nat) -> nat
    decreases buf.len() - i when i <= buf.len()
{
    if i >= buf.len() {
        0
    } else if buf[i as int] == c {
        run_len(buf, c, i + 1) + 1
    } else if is_token_byte(buf[i as int]) {
        0
    } else {
        run_len(buf, c, i + 1)
    }
}

/// The cursor position after consuming the run counted by [`run_len`]: just
/// past the last byte of the run, or at the operator byte that ended it, so
/// that the next scan resumes at that token.
pub open spec fn run_end(buf: Seq<u8>, c: u8, i: nat) -> nat
    decreases buf.len() - i when i <= buf.len()
{
    if i >= buf.len() {
        buf.len()
    } else if buf[i as int] == c {
        run_end(buf, c, i + 1)
    } else if is_token_byte(buf[i as int]) {
        i
    } else {
        run_end(buf, c, i + 1)
    }
}

/// The position of the first `;` (byte 59) at or after `i`, or the end of
/// the buffer: where a command payload beginning at `i` stops.
pub open spec fn payload_end(buf: Seq<u8>, i: nat) -> nat
    decreases buf.len() - i when i <= buf.len()
{
    if i >= buf.len() {
        buf.len()
    } else if buf[i as int] == 59 {
        i
    } else {
        payload_end(buf, i + 1)
    }
}

/// The cursor position after a command payload beginning at `i`: just past
/// the terminating `;`, or the end of the buffer if none terminates it.
pub open spec fn after_payload(buf: Seq<u8>, i: nat) -> nat {
    if payload_end(buf, i) < buf.len() {
        payload_end(buf, i) + 1
    } else {
        buf.len()
    }
}

/// The counted instruction for one collapsed run of the operator `c`.
pub open spec fn counted_instr(c: u8, n: nat) -> InstrView {
    if c == 62 {
        InstrView::ShiftRight(n)
    } else if c == 60 {
        InstrView::ShiftLeft(n)
    } else if c == 43 {
        InstrView::Increment(n)
    } else {
        InstrView::Decrement(n)
    }
}

/// The parse mode: `Normal` recognizes the eight operators and loops only;
/// `Command` additionally recognizes `#...;` meta-commands.
#[derive(Debug, Clone, Copy, PartialEq, Eq)]
pub enum ParserMode {
    Normal,
    Command,
}

pub proof fn lemma_tok_at_ge(buf: Seq<u8>, i: nat)
    requires
        i <= buf.len(),
    ensures
        tok_at(buf, i) matches Some(j) ==> i <= j < buf.len() && is_token_byte(buf[j as int]),
    decreases buf.len() - i,
{
    if i < buf.len() && !is_token_byte(buf[i as int]) {
        lemma_tok_at_ge(buf, i + 1);
    }
}

pub proof fn lemma_run_end_ge(buf: Seq<u8>, c: u8, i: nat)
    requires
        i <= buf.len(),
    ensures
        i <= run_end(buf, c, i) <= buf.len(),
    decreases buf.len() - i,
{
    if i < buf.len() && (buf[i as int] == c || !is_token_byte(buf[i as int])) {
        lemma_run_end_ge(buf, c, i + 1);
    }
}

pub proof fn lemma_payload_end_ge(buf: Seq<u8>, i: nat)
    requires
        i <= buf.len(),
    ensures
        i <= payload_end(buf, i) <= buf.len(),
        payload_end(buf, i) < buf.len() ==> buf[payload_end(buf, i) as int] == 59,
    decreases buf.len() - i,
{
    if i < buf.len() && buf[i as int] != 59 {
        lemma_payload_end_ge(buf, i + 1);
    }
}

/// What parsing yields from `buf` when the scan stands at cursor `i` with the
/// instructions `acc` already emitted and the positions of the still-open
/// `[` brackets on `stack`. This is the reference semantics of the parser:
/// one recursive step consumes one token (a whole collapsed run for the
/// movement/arithmetic operators, a whole `#...;` payload in command mode).
pub open spec fn parse_rec(
    buf: Seq<u8>,
    mode: ParserMode,
    i: nat,
    acc: Seq<InstrView>,
    stack: Seq<nat>,
) -> Result<Seq<InstrView>, ParseError>
    decreases buf.len() - i when i <= buf.len() via parse_rec_decreases
{
    match tok_at(buf, i) {
        None => {
            if stack.len() > 0 {
                Err(ParseError::UnmatchedOpen)
            } else {
                Ok(acc)
            }
        },
        Some(j) => {
            let c = buf[j as int];
            if is_arith_byte(c) {
                // a movement/arithmetic operator: collapse its whole run
                parse_rec(
                    buf,
                    mode,
                    run_end(buf, c, j + 1),
                    acc.push(counted_instr(c, run_len(buf, c, j + 1) + 1)),
                    stack,
                )
            } else if c == 46 {
                // `.`
                parse_rec(buf, mode, j + 1, acc.push(InstrView::Output), stack)
            } else if c == 44 {
                // `,`
                parse_rec(buf, mode, j + 1, acc.push(InstrView::Input), stack)
            } else if c == 91 {
                // `[`: a placeholder, resolved when its `]` arrives
                parse_rec(
                    buf,
                    mode,
                    j + 1,
                    acc.push(InstrView::StartLoop(None)),
                    stack.push(acc.len()),
                )
            } else if c == 93 {
                // `]`: resolve the innermost open bracket
                if stack.len() == 0 {
                    Err(ParseError::UnmatchedClose)
                } else {
                    let p = stack.last();
                    parse_rec(
                        buf,
                        mode,
                        j + 1,
                        acc.update(p as int, InstrView::StartLoop(Some(acc.len() + 1))).push(
                            InstrView::EndLoop(p),
                        ),
                        stack.drop_last(),
                    )
                }
            } else {
                // c == 35, the `#` marker
                if mode is Command {
                    parse_rec(
                        buf,
                        mode,
                        after_payload(buf, j + 1),
                        acc.push(
                            InstrView::Command(
                                buf.subrange((j + 1) as int, payload_end(buf, j + 1) as int),
                            ),
                        ),
                        stack,
                    )
                } else {
                    parse_rec(buf, mode, j + 1, acc, stack)
                }
            }
        },
    }
}

#[via_fn]
proof fn parse_rec_decreases(
    buf: Seq<u8>,
    mode: ParserMode,
    i: nat,
    acc: Seq<InstrView>,
    stack: Seq<nat>,
) {
    lemma_tok_at_ge(buf, i);
    match tok_at(buf, i) {
        Some(j) => {
            lemma_run_end_ge(buf, buf[j as int], j + 1);
            lemma_payload_end_ge(buf, j + 1);
        },
        None => {},
    }
}

/// What parsing the whole buffer yields.
pub open spec fn parse_spec(buf: Seq<u8>, mode: ParserMode) -> Result<Seq<InstrView>, ParseError> {
    parse_rec(buf, mode, 0, Seq::empty(), Seq::empty())
}

/// A cursor over a source byte buffer that yields only recognized operator
/// characters, skipping everything else, with one token of retraction
/// (`back`) and a raw byte-at-a-time reader for command payloads.
#[derive(Clone, Copy)]
pub struct Lexer<'a> {
    pub buffer: &'a [u8],
    pub cursor: usize,
}

impl<'a> Lexer<'a> {
    pub fn new(buffer: &'a [u8]) -> (r: Self)
        ensures
            r.buffer@ == buffer@,
            r.cursor == 0,
    {
        Lexer { buffer, cursor: 0 }
    }

    /// Advances past non-operator bytes and returns the next operator
    /// character, leaving the cursor just past it; at end of input returns
    /// `None` with the cursor at the end.
    pub fn next_token(&mut self) -> (r: Option<char>)
        requires
            old(self).cursor <= old(self).buffer@.len(),
        ensures
            final(self).buffer@ == old(self).buffer@,
            match tok_at(old(self).buffer@, old(self).cursor as nat) {
                Some(j) => r == Some(old(self).buffer@[j as int] as char) && final(self).cursor == j
                    + 1,
                None => r is None && final(self).cursor == old(self).buffer@.len(),
            },
    {
        while self.cursor < self.buffer.len()
            invariant
                self.buffer@ == old(self).buffer@,
                self.cursor <= self.buffer@.len(),
                tok_at(self.buffer@, old(self).cursor as nat) == tok_at(
                    self.buffer@,
                    self.cursor as nat,
                ),
            decreases self.buffer@.len() - self.cursor,
        {
            let c = self.buffer[self.cursor];
            self.cursor = self.cursor + 1;
            if c == 62 || c == 60 || c == 43 || c == 45 || c == 46 || c == 44 || c == 91 || c == 93
                || c == 35 {
                return Some(c as char);
            }
        }
        None
    }

    /// Returns the byte under the cursor unfiltered and advances, or `None`
    /// at end of input: the raw reader for command payloads.
    pub fn next_byte(&mut self) -> (r: Option<u8>)
        ensures
            final(self).buffer@ == old(self).buffer@,
            old(self).cursor < old(self).buffer@.len() ==> r == Some(
                old(self).buffer@[old(self).cursor as int],
            ) && final(self).cursor == old(self).cursor + 1,
            old(self).cursor >= old(self).buffer@.len() ==> r is None && final(self).cursor == old(
                self,
            ).cursor,
    {
        if self.cursor < self.buffer.len() {
            let b = self.buffer[self.cursor];
            self.cursor = self.cursor + 1;
            Some(b)
        } else {
            None
        }
    }

    /// Like [`Self::next_byte`] but as a character, mirroring the raw reader
    /// the interactive front end uses.
    pub fn next_char(&mut self) -> (r: Option<char>)
        ensures
            final(self).buffer@ == old(self).buffer@,
            old(self).cursor < old(self).buffer@.len() ==> r == Some(
                old(self).buffer@[old(self).cursor as int] as char,
            ) && final(self).cursor == old(self).cursor + 1,
            old(self).cursor >= old(self).buffer@.len() ==> r is None && final(self).cursor == old(
                self,
            ).cursor,
    {
        match self.next_byte() {
            Some(b) => Some(b as char),
            None => None,
        }
    }

    /// Retracts the cursor by one byte, so that the token just consumed is
    /// scanned again; at the start of the buffer it stays put.
    pub fn back(&mut self)
        ensures
            final(self).buffer@ == old(self).buffer@,
            old(self).cursor > 0 ==> final(self).cursor == old(self).cursor - 1,
            old(self).cursor == 0 ==> final(self).cursor == 0,
    {
        if self.cursor > 0 {
            self.cursor = self.cursor - 1;
        }
    }
}


pub proof fn lemma_run_len_le(buf: Seq<u8>, c: u8, i: nat)
    requires
        i <= buf.len(),
    ensures
        run_len(buf, c, i) <= buf.len() - i,
    decreases buf.len() - i,
{
    if i < buf.len() {
        lemma_run_len_le(buf, c, i + 1);
    }
}

/// Skipping the non-operator bytes before the next token changes neither the
/// remaining run length nor where the run ends.
pub proof fn lemma_run_at_tok(buf: Seq<u8>, c: u8, i: nat)
    requires
        i <= buf.len(),
        is_token_byte(c),
    ensures
        tok_at(buf, i) matches Some(k) ==> run_len(buf, c, i) == run_len(buf, c, k) && run_end(
            buf,
            c,
            i,
        ) == run_end(buf, c, k),
        tok_at(buf, i) is None ==> run_len(buf, c, i) == 0 && run_end(buf, c, i) == buf.len(),
    decreases buf.len() - i,
{
    if i < buf.len() && !is_token_byte(buf[i as int]) {
        lemma_run_at_tok(buf, c, i + 1);
    }
}

/// The mathematical value of a parser loop stack.
pub open spec fn stack_view(s: Seq<usize>) -> Seq<nat> {
    s.map_values(|x: usize| x as nat)
}

pub struct Parser;

impl Parser {
    /// Parses the lexer's remaining input into a flat instruction vector.
    /// Runs of identical movement/arithmetic operators collapse into one
    /// counted instruction, `[`/`]` pairs resolve into both-direction jump
    /// targets, and in `Command` mode a `#...;` payload is captured verbatim.
    /// Unbalanced brackets fail structurally: no partial program is handed
    /// out.
    pub fn parse(lexer: Lexer<'_>, mode: ParserMode) -> (r: Result<Vec<Instruction>, ParseError>)
        requires
            lexer.cursor <= lexer.buffer@.len(),
        ensures
            match r {
                Ok(v) => parse_rec(
                    lexer.buffer@,
                    mode,
                    lexer.cursor as nat,
                    Seq::empty(),
                    Seq::empty(),
                ) == Ok::<Seq<InstrView>, ParseError>(instrs_view(v@)) && batch_wf(
                    instrs_view(v@),
                ),
                Err(e) => parse_rec(
                    lexer.buffer@,
                    mode,
                    lexer.cursor as nat,
                    Seq::empty(),
                    Seq::empty(),
                ) == Err::<Seq<InstrView>, ParseError>(e),
            },
    {
        let mut lx = lexer;
        let ghost buf = lx.buffer@;
        let ghost c0 = lx.cursor as nat;
        let buffer_len = lx.buffer.len();
        proof {
            assert(buf.len() == buffer_len);
        }
        let mut instructions: Vec<Instruction> = Vec::new();
        let mut loop_stack: Vec<usize> = Vec::new();
        proof {
            assert(instrs_view(instructions@) =~= Seq::<InstrView>::empty());
            assert(stack_view(loop_stack@) =~= Seq::<nat>::empty());
        }

        loop
            invariant
                buf == lexer.buffer@,
                c0 == lexer.cursor as nat,
                lx.buffer@ == buf,
                lx.cursor <= buf.len() <= usize::MAX,
                c0 <= lx.cursor,
                instructions@.len() + c0 <= lx.cursor,
                forall|k: int|
                    0 <= k < loop_stack@.len() ==> (#[trigger] loop_stack@[k])
                        < instructions@.len(),
                parse_rec(buf, mode, c0, Seq::empty(), Seq::empty()) == parse_rec(
                    buf,
                    mode,
                    lx.cursor as nat,
                    instrs_view(instructions@),
                    stack_view(loop_stack@),
                ),
            decreases buf.len() - lx.cursor,
        {
            let ghost pre = lx.cursor as nat;
            let ghost acc0 = instrs_view(instructions@);
            let ghost stk0 = stack_view(loop_stack@);
            proof {
                lemma_tok_at_ge(buf, pre);
            }
            match lx.next_token() {
                None => {
                    proof {
                        assert(tok_at(buf, pre) is None);
                        assert(stack_view(loop_stack@).len() == loop_stack@.len());
                        assert(parse_rec(buf, mode, pre, acc0, stk0) == if stk0.len() > 0 {
                            Err::<Seq<InstrView>, ParseError>(ParseError::UnmatchedOpen)
                        } else {
                            Ok::<Seq<InstrView>, ParseError>(acc0)
                        });
                    }
                    if loop_stack.len() > 0 {
                        proof {
                            assert(parse_rec(buf, mode, c0, Seq::empty(), Seq::empty())
                                == Err::<Seq<InstrView>, ParseError>(ParseError::UnmatchedOpen));
                        }
                        return Err(ParseError::UnmatchedOpen);
                    } else {
                        proof {
                            assert(parse_rec(buf, mode, c0, Seq::empty(), Seq::empty())
                                == Ok::<Seq<InstrView>, ParseError>(instrs_view(instructions@)));
                            lemma_parse_ok_wf(buf, mode, c0);
                        }
                        return Ok(instructions);
                    }
                },
                Some(c) => {
                    let ghost j = (lx.cursor - 1) as nat;
                    let ghost cb = buf[j as int];
                    proof {
                        assert(tok_at(buf, pre) == Some(j));
                        assert(c == cb as char);
                    }
                    if c == '>' || c == '<' || c == '+' || c == '-' {
                        let ghost p0 = lx.cursor as nat;
                        proof {
                            assert(is_arith_byte(cb));
                            lemma_run_len_le(buf, cb, p0);
                        }
                        let mut count: usize = 1;
                        loop
                            invariant
                                lx.buffer@ == buf,
                                1 <= p0 <= lx.cursor <= buf.len() <= usize::MAX,
                                1 <= count,
                                is_arith_byte(cb),
                                c == cb as char,
                                run_len(buf, cb, p0) <= buf.len() - p0,
                                count - 1 + run_len(buf, cb, lx.cursor as nat) == run_len(
                                    buf,
                                    cb,
                                    p0,
                                ),
                                run_end(buf, cb, lx.cursor as nat) == run_end(buf, cb, p0),
                            ensures
                                lx.buffer@ == buf,
                                p0 <= lx.cursor <= buf.len(),
                                count == 1 + run_len(buf, cb, p0),
                                lx.cursor as nat == run_end(buf, cb, p0),
                            decreases buf.len() - lx.cursor,
                        {
                            let ghost cur = lx.cursor as nat;
                            proof {
                                lemma_tok_at_ge(buf, cur);
                                lemma_run_at_tok(buf, cb, cur);
                            }
                            match lx.next_token() {
                                Some(ch) => {
                                    if ch == c {
                                        count = count + 1;
                                    } else {
                                        lx.back();
                                        break ;
                                    }
                                },
                                None => {
                                    break ;
                                },
                            }
                        }
                        let instr = if c == '>' {
                            Instruction::ShiftRight(count)
                        } else if c == '<' {
                            Instruction::ShiftLeft(count)
                        } else if c == '+' {
                            Instruction::Increment(count)
                        } else {
                            Instruction::Decrement(count)
                        };
                        instructions.push(instr);
                        proof {
                            lemma_run_end_ge(buf, cb, p0);
                            assert(instrs_view(instructions@) =~= acc0.push(
                                counted_instr(cb, count as nat),
                            ));
                        }
                    } else if c == '.' {
                        instructions.push(Instruction::Output);
                        proof {
                            assert(instrs_view(instructions@) =~= acc0.push(InstrView::Output));
                        }
                    } else if c == ',' {
                        instructions.push(Instruction::Input);
                        proof {
                            assert(instrs_view(instructions@) =~= acc0.push(InstrView::Input));
                        }
                    } else if c == '[' {
                        let pos = instructions.len();
                        instructions.push(Instruction::StartLoop(None));
                        loop_stack.push(pos);
                        proof {
                            assert(instrs_view(instructions@) =~= acc0.push(
                                InstrView::StartLoop(None),
                            ));
                            assert(stack_view(loop_stack@) =~= stk0.push(acc0.len()));
                        }
                    } else if c == ']' {
                        match loop_stack.pop() {
                            None => {
                                proof {
                                    assert(stack_view(loop_stack@).len() == 0);
                                    assert(parse_rec(buf, mode, pre, acc0, stk0)
                                        == Err::<Seq<InstrView>, ParseError>(
                                        ParseError::UnmatchedClose,
                                    ));
                                }
                                return Err(ParseError::UnmatchedClose);
                            },
                            Some(pos) => {
                                let tgt = instructions.len() + 1;
                                instructions.set(pos, Instruction::StartLoop(Some(tgt)));
                                instructions.push(Instruction::EndLoop(pos));
                                proof {
                                    assert(stk0.last() == pos as nat);
                                    assert(instrs_view(instructions@) =~= acc0.update(
                                        pos as int,
                                        InstrView::StartLoop(Some(acc0.len() + 1)),
                                    ).push(InstrView::EndLoop(pos as nat)));
                                    assert(stack_view(loop_stack@) =~= stk0.drop_last());
                                }
                            },
                        }
                    } else {
                        // c == '#'
                        match mode {
                            ParserMode::Command => {
                                let ghost p0 = lx.cursor as nat;
                                proof {
                                    lemma_payload_end_ge(buf, p0);
                                }
                                let mut command: Vec<u8> = Vec::new();
                                loop
                                    invariant_except_break
                                        command@ == buf.subrange(
                                            p0 as int,
                                            lx.cursor as int,
                                        ),
                                        payload_end(buf, p0) == payload_end(
                                            buf,
                                            lx.cursor as nat,
                                        ),
                                    invariant
                                        lx.buffer@ == buf,
                                        p0 <= lx.cursor <= buf.len() <= usize::MAX,
                                    ensures
                                        lx.buffer@ == buf,
                                        p0 <= lx.cursor <= buf.len(),
                                        command@ == buf.subrange(
                                            p0 as int,
                                            payload_end(buf, p0) as int,
                                        ),
                                        lx.cursor as nat == after_payload(buf, p0),
                                    decreases buf.len() - lx.cursor,
                                {
                                    let ghost cur = lx.cursor as nat;
                                    match lx.next_byte() {
                                        Some(b) => {
                                            if b == 59 {
                                                proof {
                                                    assert(payload_end(buf, cur) == cur);
                                                }
                                                break ;
                                            } else {
                                                command.push(b);
                                                proof {
                                                    assert(buf.subrange(
                                                        p0 as int,
                                                        cur as int + 1,
                                                    ) =~= buf.subrange(p0 as int, cur as int).push(
                                                        buf[cur as int],
                                                    ));
                                                }
                                            }
                                        },
                                        None => {
                                            proof {
                                                assert(lx.cursor == buf.len());
                                            }
                                            break ;
                                        },
                                    }
                                }
                                instructions.push(Instruction::Command(command));
                                proof {
                                    lemma_payload_end_ge(buf, p0);
                                    assert(instrs_view(instructions@) =~= acc0.push(
                                        InstrView::Command(
                                            buf.subrange(
                                                p0 as int,
                                                payload_end(buf, p0) as int,
                                            ),
                                        ),
                                    ));
                                }
                            },
                            ParserMode::Normal => {
                            },
                        }
                    }
                },
            }
        }
    }
}



/// The parser's internal shape between tokens: the loop stack holds, in
/// strictly increasing order, exactly the positions of the still-unresolved
/// `StartLoop` placeholders, and everything already resolved is mutually
/// matched.
pub open spec fn parse_inv(acc: Seq<InstrView>, stack: Seq<nat>) -> bool {
    &&& forall|k: int|
        0 <= k < stack.len() ==> (#[trigger] stack[k]) < acc.len() && acc[stack[k] as int]
            == InstrView::StartLoop(None)
    &&& forall|k1: int, k2: int| 0 <= k1 < k2 < stack.len() ==> stack[k1] < stack[k2]
    &&& forall|i: int|
        0 <= i < acc.len() && #[trigger] acc[i] == InstrView::StartLoop(None) ==> stack.contains(
            i as nat,
        )
    &&& forall|i: int|
        0 <= i < acc.len() ==> match #[trigger] acc[i] {
            InstrView::StartLoop(t) => t matches Some(n) ==> i + 1 < n <= acc.len() && acc[n - 1]
                == InstrView::EndLoop(i as nat),
            _ => true,
        }
    &&& forall|j: int|
        0 <= j < acc.len() ==> match #[trigger] acc[j] {
            InstrView::EndLoop(s) => s < j && acc[s as int] == InstrView::StartLoop(
                Some((j + 1) as nat),
            ),
            _ => true,
        }
    &&& counts_positive(acc)
}

proof fn lemma_parse_rec_wf(
    buf: Seq<u8>,
    mode: ParserMode,
    i: nat,
    acc: Seq<InstrView>,
    stack: Seq<nat>,
)
    requires
        i <= buf.len(),
        parse_inv(acc, stack),
    ensures
        parse_rec(buf, mode, i, acc, stack) matches Ok(r) ==> batch_wf(r),
    decreases buf.len() - i,
{
    lemma_tok_at_ge(buf, i);
    match tok_at(buf, i) {
        None => {
            if stack.len() == 0 {
                let r = acc;
                assert forall|x: int| 0 <= x < r.len() implies !(#[trigger] r[x]
                    matches InstrView::StartLoop(None)) by {
                    if r[x] == InstrView::StartLoop(None) {
                        assert(stack.contains(x as nat));
                    }
                }
            }
        },
        Some(j) => {
            let c = buf[j as int];
            if is_arith_byte(c) {
                lemma_run_end_ge(buf, c, j + 1);
                let acc2 = acc.push(counted_instr(c, run_len(buf, c, j + 1) + 1));
                assert(parse_inv(acc2, stack)) by {
                    lemma_inv_push_plain(acc, stack, counted_instr(c, run_len(buf, c, j + 1) + 1));
                }
                lemma_parse_rec_wf(buf, mode, run_end(buf, c, j + 1), acc2, stack);
            } else if c == 46 {
                let acc2 = acc.push(InstrView::Output);
                assert(parse_inv(acc2, stack)) by {
                    lemma_inv_push_plain(acc, stack, InstrView::Output);
                }
                lemma_parse_rec_wf(buf, mode, j + 1, acc2, stack);
            } else if c == 44 {
                let acc2 = acc.push(InstrView::Input);
                assert(parse_inv(acc2, stack)) by {
                    lemma_inv_push_plain(acc, stack, InstrView::Input);
                }
                lemma_parse_rec_wf(buf, mode, j + 1, acc2, stack);
            } else if c == 91 {
                let acc2 = acc.push(InstrView::StartLoop(None));
                let stack2 = stack.push(acc.len());
                assert(parse_inv(acc2, stack2)) by {
                    lemma_inv_open(acc, stack);
                }
                lemma_parse_rec_wf(buf, mode, j + 1, acc2, stack2);
            } else if c == 93 {
                if stack.len() > 0 {
                    let p = stack.last();
                    let acc2 = acc.update(p as int, InstrView::StartLoop(Some(acc.len() + 1))).push(
                        InstrView::EndLoop(p),
                    );
                    let stack2 = stack.drop_last();
                    assert(parse_inv(acc2, stack2)) by {
                        lemma_inv_close(acc, stack);
                    }
                    lemma_parse_rec_wf(buf, mode, j + 1, acc2, stack2);
                }
            } else {
                if mode is Command {
                    lemma_payload_end_ge(buf, j + 1);
                    let payload = buf.subrange((j + 1) as int, payload_end(buf, j + 1) as int);
                    let acc2 = acc.push(InstrView::Command(payload));
                    assert(parse_inv(acc2, stack)) by {
                        lemma_inv_push_plain(acc, stack, InstrView::Command(payload));
                    }
                    lemma_parse_rec_wf(buf, mode, after_payload(buf, j + 1), acc2, stack);
                } else {
                    lemma_parse_rec_wf(buf, mode, j + 1, acc, stack);
                }
            }
        },
    }
}

/// Pushing an instruction that is neither a loop bracket nor a placeholder
/// keeps the parser invariant, provided its count (if any) is positive.
proof fn lemma_inv_push_plain(acc: Seq<InstrView>, stack: Seq<nat>, x: InstrView)
    requires
        parse_inv(acc, stack),
        !(x matches InstrView::StartLoop(_)),
        !(x matches InstrView::EndLoop(_)),
        match x {
            InstrView::Increment(n) => n >= 1,
            InstrView::Decrement(n) => n >= 1,
            InstrView::ShiftLeft(n) => n >= 1,
            InstrView::ShiftRight(n) => n >= 1,
            _ => true,
        },
    ensures
        parse_inv(acc.push(x), stack),
{
    let acc2 = acc.push(x);
    assert forall|i: int|
        0 <= i < acc2.len() && #[trigger] acc2[i] == InstrView::StartLoop(None) implies stack.contains(
        i as nat,
    ) by {
        assert(i < acc.len());
        assert(acc[i] == InstrView::StartLoop(None));
    }
}

/// An opening bracket pushes a placeholder and records its position; the
/// invariant is kept because the new position is past every recorded one.
proof fn lemma_inv_open(acc: Seq<InstrView>, stack: Seq<nat>)
    requires
        parse_inv(acc, stack),
    ensures
        parse_inv(acc.push(InstrView::StartLoop(None)), stack.push(acc.len())),
{
    let acc2 = acc.push(InstrView::StartLoop(None));
    let stack2 = stack.push(acc.len());
    assert forall|i: int|
        0 <= i < acc2.len() && #[trigger] acc2[i] == InstrView::StartLoop(None) implies stack2.contains(
        i as nat,
    ) by {
        if i < acc.len() {
            assert(acc[i] == InstrView::StartLoop(None));
            assert(stack.contains(i as nat));
            let k = choose|k: int| 0 <= k < stack.len() && stack[k] == i as nat;
            assert(stack2[k] == i as nat);
        } else {
            assert(stack2[stack.len() as int] == i as nat);
        }
    }
}

/// A closing bracket resolves the most recent placeholder to the index just
/// past the `EndLoop` being pushed, and pops it; both directions of the
/// matching are thereby established.
proof fn lemma_inv_close(acc: Seq<InstrView>, stack: Seq<nat>)
    requires
        parse_inv(acc, stack),
        stack.len() > 0,
    ensures
        parse_inv(
            acc.update(stack.last() as int, InstrView::StartLoop(Some(acc.len() + 1))).push(
                InstrView::EndLoop(stack.last()),
            ),
            stack.drop_last(),
        ),
{
    let p = stack.last();
    let acc2 = acc.update(p as int, InstrView::StartLoop(Some(acc.len() + 1))).push(
        InstrView::EndLoop(p),
    );
    let stack2 = stack.drop_last();
    assert(p < acc.len());
    assert(acc[p as int] == InstrView::StartLoop(None));
    assert forall|k: int|
        0 <= k < stack2.len() implies (#[trigger] stack2[k]) < acc2.len() && acc2[stack2[k] as int]
        == InstrView::StartLoop(None) by {
        assert(stack2[k] == stack[k]);
        assert(stack[k] < stack[stack.len() - 1]);
    }
    assert forall|i: int|
        0 <= i < acc2.len() && #[trigger] acc2[i] == InstrView::StartLoop(None) implies stack2.contains(
        i as nat,
    ) by {
        assert(i != p && i < acc.len());
        assert(acc[i] == InstrView::StartLoop(None));
        assert(stack.contains(i as nat));
        let k = choose|k: int| 0 <= k < stack.len() && stack[k] == i as nat;
        if k == stack.len() - 1 {
            assert(stack[k] == p);
            assert(false);
        }
        assert(stack2[k] == i as nat);
    }
}

/// Everything the parser hands out is well formed: targets resolved and in
/// bounds, counts positive, and every `StartLoop` pointing just past the
/// `EndLoop` that points back at it. This is the resolution law for balanced
/// programs.
pub proof fn lemma_parse_ok_wf(buf: Seq<u8>, mode: ParserMode, i: nat)
    requires
        i <= buf.len(),
    ensures
        parse_rec(buf, mode, i, Seq::empty(), Seq::empty()) matches Ok(r) ==> batch_wf(r),
{
    lemma_parse_rec_wf(buf, mode, i, Seq::empty(), Seq::empty());
}


proof fn lemma_uniform_run(c: u8, k: nat, i: nat)
    requires
        i <= k,
        is_token_byte(c),
    ensures
        run_len(Seq::new(k, |x: int| c), c, i) == k - i,
        run_end(Seq::new(k, |x: int| c), c, i) == k,
    decreases k - i,
{
    if i < k {
        lemma_uniform_run(c, k, i + 1);
    }
}

/// The run-length law: a source that is `k >= 1` copies of one
/// movement/arithmetic operator parses to exactly one counted instruction
/// carrying `k`, never to `k` separate instructions.
pub proof fn lemma_run_collapses(c: u8, k: nat, mode: ParserMode)
    requires
        is_arith_byte(c),
        k >= 1,
    ensures
        parse_spec(Seq::new(k, |x: int| c), mode) == Ok::<Seq<InstrView>, ParseError>(
            seq![counted_instr(c, k)],
        ),
{
    let buf = Seq::new(k, |x: int| c);
    assert(tok_at(buf, 0) == Some(0nat));
    lemma_uniform_run(c, k, 1);
    let acc = Seq::<InstrView>::empty().push(counted_instr(c, k));
    assert(parse_rec(buf, mode, 0, Seq::empty(), Seq::empty()) == parse_rec(
        buf,
        mode,
        k,
        acc,
        Seq::empty(),
    ));
    assert(parse_rec(buf, mode, k, acc, Seq::empty()) == Ok::<Seq<InstrView>, ParseError>(acc));
    assert(acc =~= seq![counted_instr(c, k)]);
}


/// The running bracket depth of the source, scanned byte by byte with
/// command payloads skipped in command mode: `None` once a `]` closes an
/// unopened loop, otherwise `Some` of the final depth.
pub open spec fn balance_rec(buf: Seq<u8>, mode: ParserMode, i: nat, d: nat) -> Option<nat>
    decreases buf.len() - i when i <= buf.len() via balance_rec_decreases
{
    if i >= buf.len() {
        Some(d)
    } else {
        let b = buf[i as int];
        if b == 91 {
            balance_rec(buf, mode, i + 1, d + 1)
        } else if b == 93 {
            if d == 0 {
                None
            } else {
                balance_rec(buf, mode, i + 1, (d - 1) as nat)
            }
        } else if b == 35 && mode is Command {
            balance_rec(buf, mode, after_payload(buf, i + 1), d)
        } else {
            balance_rec(buf, mode, i + 1, d)
        }
    }
}

#[via_fn]
proof fn balance_rec_decreases(buf: Seq<u8>, mode: ParserMode, i: nat, d: nat) {
    if i < buf.len() {
        lemma_payload_end_ge(buf, i + 1);
    }
}

/// Whether the whole source is bracket-balanced, as [`balance_rec`] reports.
pub open spec fn balance_of(buf: Seq<u8>, mode: ParserMode) -> Option<nat> {
    balance_rec(buf, mode, 0, 0)
}

proof fn lemma_tok_at_skip(buf: Seq<u8>, i: nat)
    requires
        i <= buf.len(),
    ensures
        tok_at(buf, i) matches Some(j) ==> forall|k: int|
            i <= k < j ==> !is_token_byte(buf[k]),
        tok_at(buf, i) is None ==> forall|k: int|
            i <= k < buf.len() ==> !is_token_byte(buf[k]),
    decreases buf.len() - i,
{
    if i < buf.len() && !is_token_byte(buf[i as int]) {
        lemma_tok_at_skip(buf, i + 1);
    }
}

proof fn lemma_run_segment(buf: Seq<u8>, c: u8, i: nat)
    requires
        i <= buf.len(),
    ensures
        forall|k: int|
            i <= k < run_end(buf, c, i) ==> buf[k] == c || !is_token_byte(buf[k]),
    decreases buf.len() - i,
{
    lemma_run_end_ge(buf, c, i);
    if i < buf.len() && (buf[i as int] == c || !is_token_byte(buf[i as int])) {
        lemma_run_segment(buf, c, i + 1);
        lemma_run_end_ge(buf, c, i + 1);
    }
}

proof fn lemma_balance_skip(buf: Seq<u8>, mode: ParserMode, i: nat, j: nat, d: nat)
    requires
        i <= j <= buf.len(),
        forall|k: int| i <= k < j ==> buf[k] != 91 && buf[k] != 93 && buf[k] != 35,
    ensures
        balance_rec(buf, mode, i, d) == balance_rec(buf, mode, j, d),
    decreases j - i,
{
    if i < j {
        lemma_balance_skip(buf, mode, i + 1, j, d);
    }
}

proof fn lemma_parse_rec_balance(
    buf: Seq<u8>,
    mode: ParserMode,
    i: nat,
    acc: Seq<InstrView>,
    stack: Seq<nat>,
)
    requires
        i <= buf.len(),
    ensures
        (parse_rec(buf, mode, i, acc, stack) matches Ok(_)) <==> balance_rec(
            buf,
            mode,
            i,
            stack.len(),
        ) == Some(0nat),
        (parse_rec(buf, mode, i, acc, stack) == Err::<Seq<InstrView>, ParseError>(
            ParseError::UnmatchedClose,
        )) <==> balance_rec(buf, mode, i, stack.len()) is None,
        (parse_rec(buf, mode, i, acc, stack) == Err::<Seq<InstrView>, ParseError>(
            ParseError::UnmatchedOpen,
        )) <==> (balance_rec(buf, mode, i, stack.len()) matches Some(d) && d > 0),
    decreases buf.len() - i,
{
    lemma_tok_at_ge(buf, i);
    lemma_tok_at_skip(buf, i);
    match tok_at(buf, i) {
        None => {
            lemma_balance_skip(buf, mode, i, buf.len(), stack.len());
        },
        Some(j) => {
            lemma_balance_skip(buf, mode, i, j, stack.len());
            let c = buf[j as int];
            if is_arith_byte(c) {
                lemma_run_end_ge(buf, c, j + 1);
                lemma_run_segment(buf, c, j + 1);
                lemma_balance_skip(buf, mode, j + 1, run_end(buf, c, j + 1), stack.len());
                lemma_parse_rec_balance(
                    buf,
                    mode,
                    run_end(buf, c, j + 1),
                    acc.push(counted_instr(c, run_len(buf, c, j + 1) + 1)),
                    stack,
                );
            } else if c == 46 {
                lemma_parse_rec_balance(buf, mode, j + 1, acc.push(InstrView::Output), stack);
            } else if c == 44 {
                lemma_parse_rec_balance(buf, mode, j + 1, acc.push(InstrView::Input), stack);
            } else if c == 91 {
                lemma_parse_rec_balance(
                    buf,
                    mode,
                    j + 1,
                    acc.push(InstrView::StartLoop(None)),
                    stack.push(acc.len()),
                );
            } else if c == 93 {
                if stack.len() > 0 {
                    let p = stack.last();
                    lemma_parse_rec_balance(
                        buf,
                        mode,
                        j + 1,
                        acc.update(p as int, InstrView::StartLoop(Some(acc.len() + 1))).push(
                            InstrView::EndLoop(p),
                        ),
                        stack.drop_last(),
                    );
                }
            } else {
                if mode is Command {
                    lemma_payload_end_ge(buf, j + 1);
                    lemma_parse_rec_balance(
                        buf,
                        mode,
                        after_payload(buf, j + 1),
                        acc.push(
                            InstrView::Command(
                                buf.subrange((j + 1) as int, payload_end(buf, j + 1) as int),
                            ),
                        ),
                        stack,
                    );
                } else {
                    lemma_parse_rec_balance(buf, mode, j + 1, acc, stack);
                }
            }
        },
    }
}

/// The structural-failure law: parsing succeeds exactly on bracket-balanced
/// sources; a close without an open always fails with `UnmatchedClose`, and
/// an open left unclosed always fails with `UnmatchedOpen`. No unbalanced
/// source ever yields a (partial) program.
pub proof fn lemma_parse_iff_balanced(buf: Seq<u8>, mode: ParserMode)
    ensures
        (parse_spec(buf, mode) matches Ok(_)) <==> balance_of(buf, mode) == Some(0nat),
        (parse_spec(buf, mode) == Err::<Seq<InstrView>, ParseError>(ParseError::UnmatchedClose))
            <==> balance_of(buf, mode) is None,
        (parse_spec(buf, mode) == Err::<Seq<InstrView>, ParseError>(ParseError::UnmatchedOpen))
            <==> (balance_of(buf, mode) matches Some(d) && d > 0),
{
    lemma_parse_rec_balance(buf, mode, 0, Seq::empty(), Seq::empty());
}

} // verus!
