//! A Brainfuck tape machine: a program over a 30000-cell byte tape with
//! matched-bracket jumps, reading input from and writing output to in-memory
//! byte buffers. Bracket matching and the interpreter's step behaviour are
//! specified exactly; the interpreter is proved to reach its result by
//! iterating the specification step function.

pub mod optimizations;

use crate::error::{InterpretError, InterpreteResult};
use std::collections::HashMap;
use vstd::prelude::*;
use vstd::string::StringSliceAdditionalSpecFns;

verus! {

broadcast use vstd::std_specs::hash::group_hash_axioms;

/// The tape length.
pub open spec fn tape_len() -> int {
    30000
}

/// True when `c` is one of the eight Brainfuck opcodes.
pub open spec fn spec_valid_op(c: char) -> bool {
    c == '<' || c == '>' || c == '+' || c == '-' || c == '.' || c == ',' || c == '[' || c == ']'
}

/// True when `c` is one of the eight Brainfuck opcodes.
fn is_valid_op(c: char) -> (r: bool)
    ensures
        r == spec_valid_op(c),
{
    c == '<' || c == '>' || c == '+' || c == '-' || c == '.' || c == ',' || c == '[' || c == ']'
}

/// The opcodes of a source text: its bytes, kept when they spell an opcode.
/// (All opcodes are ASCII, so any non-ASCII characters fall out here.)
pub open spec fn spec_code_of(s: &str) -> Seq<char> {
    s.spec_bytes().filter(|b: u8| spec_valid_op(b as char)).map_values(|b: u8| b as char)
}

/// Match the brackets of `cs` from position `i`, with `stack` holding the
/// positions of the unmatched `[`s seen so far and `m` the pairs matched so
/// far (in both directions). `None` when a `]` has no opener or an opener
/// is never closed.
pub open spec fn spec_match_brackets(cs: Seq<char>, i: int, stack: Seq<int>, m: Map<int, int>)
    -> Option<Map<int, int>>
    decreases cs.len() - i,
    when 0 <= i
{
    if i >= cs.len() {
        if stack.len() == 0 {
            Some(m)
        } else {
            None
        }
    } else if cs[i] == '[' {
        spec_match_brackets(cs, i + 1, stack.push(i), m)
    } else if cs[i] == ']' {
        if stack.len() == 0 {
            None
        } else {
            let opener = stack.last();
            spec_match_brackets(cs, i + 1, stack.drop_last(), m.insert(opener, i).insert(i, opener))
        }
    } else {
        spec_match_brackets(cs, i + 1, stack, m)
    }
}

/// A Brainfuck program with its whole machine state: the code, the tape,
/// the instruction and data pointers, the matched-bracket jump table, and
/// the two I/O byte buffers (`reader` is consumed from `read_pos` on;
/// `writer` collects output).
pub struct BrainfuckProgram {
    pub code: Vec<char>,
    pub mem: Vec<u8>,
    pub ip: usize,
    pub dp: usize,
    pub loops: HashMap<usize, usize>,
    pub writer: Vec<u8>,
    pub reader: Vec<u8>,
    pub read_pos: usize,
}

/// The machine state as mathematical data.
pub struct MachineModel {
    pub code: Seq<char>,
    pub mem: Seq<u8>,
    pub ip: int,
    pub dp: int,
    pub loops: Map<int, int>,
    pub out: Seq<u8>,
    pub inp: Seq<u8>,
    pub rpos: int,
}

/// The jump table as a map over mathematical integers.
pub open spec fn loops_model(m: Map<usize, usize>) -> Map<int, int> {
    Map::new(
        |k: int| 0 <= k <= usize::MAX && m.contains_key(k as usize),
        |k: int| m[k as usize] as int,
    )
}

impl BrainfuckProgram {
    /// The machine state of this program.
    pub open spec fn model(&self) -> MachineModel {
        MachineModel {
            code: self.code@,
            mem: self.mem@,
            ip: self.ip as int,
            dp: self.dp as int,
            loops: loops_model(self.loops@),
            out: self.writer@,
            inp: self.reader@,
            rpos: self.read_pos as int,
        }
    }

    /// The tape has its full length and the data pointer is on it.
    pub open spec fn wf(&self) -> bool {
        self.mem@.len() == tape_len() && (self.dp as int) < tape_len()
    }
}

/// The result of one machine step.
pub enum StepResult {
    Running(MachineModel),
    Halted(MachineModel),
    Failed,
}

/// One machine step: dispatch on the current opcode. Moving left of cell 0
/// or right of the last cell fails; cell arithmetic wraps; `.` appends to
/// the output; `,` consumes one input byte and fails when none is left;
/// brackets jump via the table when the cell is zero (`[`) or nonzero
/// (`]`). Reaching the end of the code halts.
pub open spec fn spec_step(m: MachineModel) -> StepResult {
    if m.ip >= m.code.len() {
        StepResult::Halted(m)
    } else if !(0 <= m.dp < m.mem.len()) {
        StepResult::Failed
    } else {
        let c = m.code[m.ip];
        if c == '<' {
            if m.dp == 0 {
                StepResult::Failed
            } else {
                StepResult::Running(MachineModel { dp: m.dp - 1, ip: m.ip + 1, ..m })
            }
        } else if c == '>' {
            if m.dp < tape_len() - 1 {
                StepResult::Running(MachineModel { dp: m.dp + 1, ip: m.ip + 1, ..m })
            } else {
                StepResult::Failed
            }
        } else if c == '+' {
            let v = m.mem[m.dp];
            let v2: u8 = if v == 255 {
                0
            } else {
                (v + 1) as u8
            };
            StepResult::Running(MachineModel { mem: m.mem.update(m.dp, v2), ip: m.ip + 1, ..m })
        } else if c == '-' {
            let v = m.mem[m.dp];
            let v2: u8 = if v == 0 {
                255
            } else {
                (v - 1) as u8
            };
            StepResult::Running(MachineModel { mem: m.mem.update(m.dp, v2), ip: m.ip + 1, ..m })
        } else if c == '.' {
            StepResult::Running(MachineModel { out: m.out.push(m.mem[m.dp]), ip: m.ip + 1, ..m })
        } else if c == ',' {
            if m.rpos < m.inp.len() {
                StepResult::Running(
                    MachineModel {
                        mem: m.mem.update(m.dp, m.inp[m.rpos]),
                        rpos: m.rpos + 1,
                        ip: m.ip + 1,
                        ..m
                    },
                )
            } else {
                StepResult::Failed
            }
        } else if c == '[' {
            if m.mem[m.dp] == 0 {
                if m.loops.contains_key(m.ip) {
                    StepResult::Running(MachineModel { ip: m.loops[m.ip] + 1, ..m })
                } else {
                    StepResult::Failed
                }
            } else {
                StepResult::Running(MachineModel { ip: m.ip + 1, ..m })
            }
        } else if c == ']' {
            if m.mem[m.dp] != 0 {
                if m.loops.contains_key(m.ip) {
                    StepResult::Running(MachineModel { ip: m.loops[m.ip] + 1, ..m })
                } else {
                    StepResult::Failed
                }
            } else {
                StepResult::Running(MachineModel { ip: m.ip + 1, ..m })
            }
        } else {
            StepResult::Failed
        }
    }
}

/// Iterate the step function `n` times (stopping early on halt or failure).
pub open spec fn spec_run(m: MachineModel, n: nat) -> StepResult
    decreases n,
{
    if n == 0 {
        StepResult::Running(m)
    } else {
        match spec_run(m, (n - 1) as nat) {
            StepResult::Running(m2) => spec_step(m2),
            other => other,
        }
    }
}

proof fn lemma_run_extend(m0: MachineModel, n: nat)
    requires
        spec_run(m0, n) matches StepResult::Running(m),
    ensures
        spec_run(m0, n + 1) == spec_step(spec_run(m0, n)->Running_0),
{
    assert(spec_run(m0, (n + 1) as nat) == match spec_run(m0, n) {
        StepResult::Running(m2) => spec_step(m2),
        other => other,
    });
}

} // verus!

verus! {

/// The opcodes among a byte sequence, as characters.
pub open spec fn spec_code_bytes(bs: Seq<u8>) -> Seq<char> {
    bs.filter(|b: u8| spec_valid_op(b as char)).map_values(|b: u8| b as char)
}

/// The positions of a bracket stack, as mathematical integers.
pub open spec fn stack_model(s: Seq<usize>) -> Seq<int> {
    s.map_values(|x: usize| x as int)
}

proof fn lemma_loops_model_insert(m: Map<usize, usize>, k: usize, v: usize)
    ensures
        loops_model(m.insert(k, v)) =~= loops_model(m).insert(k as int, v as int),
{
}

impl BrainfuckProgram {
    /// All jump targets land inside the code.
    pub open spec fn loops_wf(&self) -> bool {
        forall|k: usize| #[trigger]
            self.loops@.contains_key(k) ==> (self.loops@[k] as int) < self.code@.len()
    }

    /// Build a program from source text and the two I/O buffers: keep the
    /// opcode characters, match the brackets into the jump table (both
    /// directions), and start with a zeroed tape. Fails exactly when the
    /// brackets do not match.
    pub fn new_full(input: String, writer: Vec<u8>, reader: Vec<u8>) -> (r: InterpreteResult<
        BrainfuckProgram,
    >)
        ensures
            r matches Ok(p) ==> {
                &&& p.code@ == spec_code_bytes(vstd::utf8::encode_utf8(input@))
                &&& spec_match_brackets(p.code@, 0, Seq::empty(), Map::empty()) == Some(
                    loops_model(p.loops@),
                )
                &&& p.wf()
                &&& p.loops_wf()
                &&& p.mem@ =~= Seq::new(tape_len() as nat, |i: int| 0u8)
                &&& p.ip == 0 && p.dp == 0 && p.read_pos == 0
                &&& p.writer@ == writer@ && p.reader@ == reader@
            },
            r is Err ==> spec_match_brackets(
                spec_code_bytes(vstd::utf8::encode_utf8(input@)),
                0,
                Seq::empty(),
                Map::empty(),
            ) is None,
    {
        let bytes = input.as_str().as_bytes();
        let ghost bs = bytes@;
        let nb = bytes.len();
        let mut code: Vec<char> = Vec::new();
        let mut k: usize = 0;
        while k < nb
            invariant
                k <= nb,
                nb == bs.len(),
                bytes@ == bs,
                code@ =~= spec_code_bytes(bs.take(k as int)),
            decreases nb - k,
        {
            let b = bytes[k];
            proof {
                reveal(Seq::filter);
                assert(bs.take(k + 1 as int).drop_last() =~= bs.take(k as int));
                assert(bs.take(k + 1 as int).last() == bs[k as int]);
            }
            if is_valid_op(b as char) {
                code.push(b as char);
            }
            proof {
                assert(code@ =~= spec_code_bytes(bs.take(k + 1 as int)));
            }
            k = k + 1;
        }
        proof {
            assert(bs.take(nb as int) =~= bs);
        }
        let ghost cs = code@;
        let n = code.len();
        let mut stack: Vec<usize> = Vec::new();
        let mut loops: HashMap<usize, usize> = HashMap::new();
        let mut i: usize = 0;
        proof {
            assert(stack_model(stack@) =~= Seq::<int>::empty());
            assert(loops_model(loops@) =~= Map::<int, int>::empty());
        }
        while i < n
            invariant
                i <= n,
                n == cs.len(),
                code@ == cs,
                cs == spec_code_bytes(vstd::utf8::encode_utf8(input@)),
                spec_match_brackets(cs, 0, Seq::empty(), Map::empty()) == spec_match_brackets(
                    cs,
                    i as int,
                    stack_model(stack@),
                    loops_model(loops@),
                ),
                forall|j: int| 0 <= j < stack@.len() ==> (#[trigger] stack@[j] as int) < i,
                forall|k: usize| #[trigger]
                    loops@.contains_key(k) ==> (k as int) < i && (loops@[k] as int) < i,
            decreases n - i,
        {
            let c = code[i];
            let ghost st0 = stack@;
            let ghost lp0 = loops@;
            if c == '[' {
                stack.push(i);
                proof {
                    assert(stack_model(stack@) =~= stack_model(st0).push(i as int));
                }
            } else if c == ']' {
                match stack.pop() {
                    Some(opener) => {
                        loops.insert(opener, i);
                        loops.insert(i, opener);
                        proof {
                            assert(stack_model(st0).len() > 0);
                            assert(stack_model(stack@) =~= stack_model(st0).drop_last());
                            assert(stack_model(st0).last() == opener as int);
                            lemma_loops_model_insert(lp0, opener, i);
                            lemma_loops_model_insert(lp0.insert(opener, i), i, opener);
                        }
                    },
                    None => {
                        proof {
                            assert(stack_model(st0).len() == 0);
                        }
                        return Err(InterpretError::msg("Detected mismatched brackets, too many ]"));
                    },
                }
            }
            i = i + 1;
        }
        if stack.len() > 0 {
            proof {
                assert(stack_model(stack@).len() > 0);
            }
            return Err(InterpretError::msg("Detected mismatched brackets, too many ["));
        }
        proof {
            assert(stack_model(stack@).len() == 0);
        }
        let mut mem: Vec<u8> = Vec::new();
        let mut z: usize = 0;
        while z < 30000
            invariant
                z <= 30000,
                mem@.len() == z,
                forall|j: int| 0 <= j < z ==> #[trigger] mem@[j] == 0u8,
            decreases 30000 - z,
        {
            mem.push(0u8);
            z = z + 1;
        }
        proof {
            assert(mem@ =~= Seq::new(tape_len() as nat, |i: int| 0u8));
        }
        Ok(BrainfuckProgram { code, mem, ip: 0, dp: 0, loops, writer, reader, read_pos: 0 })
    }
}

} // verus!

verus! {

impl BrainfuckProgram {
    /// Run the machine to completion by iterating the specification step:
    /// on success the returned tape (also left in the program) is the tape
    /// of the halted machine that some number of steps reaches, and on
    /// failure some number of steps reaches the failing step. The one
    /// departure from plain iteration is a step budget so large it cannot
    /// be exhausted in practice; a program still running when it runs out
    /// is reported as an error.
    #[verifier::loop_isolation(false)]
    pub fn interpret_naive(&mut self) -> (r: InterpreteResult<Vec<u8>>)
        requires
            old(self).wf(),
            old(self).loops_wf(),
        ensures
            r matches Ok(memv) ==> exists|n: nat|
                #[trigger] spec_run(old(self).model(), n) matches StepResult::Halted(m2)
                    && memv@ == m2.mem && final(self).model() == m2,
            r is Err ==> (exists|n: nat| #[trigger] spec_run(old(self).model(), n)
                == StepResult::Failed) || (spec_run(old(self).model(), u64::MAX as nat)
                is Running),
    {
        let ghost m0 = old(self).model();
        let ghost steps: nat = 0nat;
        let mut budget: u64 = u64::MAX;
        loop
            invariant
                self.wf(),
                self.loops_wf(),
                spec_run(m0, steps) == StepResult::Running(self.model()),
                steps + budget == u64::MAX,
            decreases budget,
        {
            if self.ip >= self.code.len() {
                proof {
                    lemma_run_extend(m0, steps);
                    assert(spec_run(m0, steps + 1) == StepResult::Halted(self.model()));
                }
                let memv = clone_bytes(&self.mem);
                return Ok(memv);
            }
            if budget == 0 {
                return Err(InterpretError::msg("Step budget exhausted"));
            }
            let ghost pre = self.model();
            proof {
                lemma_run_extend(m0, steps);
            }
            let c = self.code[self.ip];
            if c == '<' {
                if self.dp == 0 {
                    proof {
                        assert(spec_run(m0, steps + 1) == StepResult::Failed);
                    }
                    return Err(InterpretError::msg("Data pointer is 0, cannot decrement"));
                }
                self.dp = self.dp - 1;
            } else if c == '>' {
                if self.dp < 29999 {
                    self.dp = self.dp + 1;
                } else {
                    proof {
                        assert(spec_run(m0, steps + 1) == StepResult::Failed);
                    }
                    return Err(InterpretError::msg("Data pointer is 29999, cannot increment"));
                }
            } else if c == '+' {
                let v = self.mem[self.dp];
                let v2: u8 = if v == 255 {
                    0
                } else {
                    v + 1
                };
                self.mem[self.dp] = v2;
            } else if c == '-' {
                let v = self.mem[self.dp];
                let v2: u8 = if v == 0 {
                    255
                } else {
                    v - 1
                };
                self.mem[self.dp] = v2;
            } else if c == '.' {
                let v = self.mem[self.dp];
                self.writer.push(v);
            } else if c == ',' {
                if self.read_pos < self.reader.len() {
                    let b = self.reader[self.read_pos];
                    self.mem[self.dp] = b;
                    self.read_pos = self.read_pos + 1;
                } else {
                    proof {
                        assert(spec_run(m0, steps + 1) == StepResult::Failed);
                    }
                    return Err(
                        InterpretError::msg(
                            "Read 0 bytes from configured reader, expected exactly 1",
                        ),
                    );
                }
            } else if c == '[' {
                if self.mem[self.dp] == 0 {
                    match self.loops.get(&self.ip) {
                        Some(t) => {
                            self.ip = *t;
                        },
                        None => {
                            proof {
                                assert(spec_run(m0, steps + 1) == StepResult::Failed);
                            }
                            return Err(InterpretError::msg("Unable to get matching bracket"));
                        },
                    }
                }
            } else if c == ']' {
                if self.mem[self.dp] != 0 {
                    match self.loops.get(&self.ip) {
                        Some(t) => {
                            self.ip = *t;
                        },
                        None => {
                            proof {
                                assert(spec_run(m0, steps + 1) == StepResult::Failed);
                            }
                            return Err(InterpretError::msg("Unable to get matching bracket"));
                        },
                    }
                }
            } else {
                proof {
                    assert(spec_run(m0, steps + 1) == StepResult::Failed);
                }
                return Err(InterpretError::msg("Unexpected char in code"));
            }
            self.ip = self.ip + 1;
            budget = budget - 1;
            proof {
                steps = steps + 1nat;
                assert(spec_run(m0, steps) == StepResult::Running(self.model()));
            }
        }
    }
}

/// A plain copy of a byte vector.
fn clone_bytes(v: &Vec<u8>) -> (r: Vec<u8>)
    ensures
        r@ == v@,
{
    let mut out: Vec<u8> = Vec::new();
    let n = v.len();
    let mut i: usize = 0;
    while i < n
        invariant
            i <= n,
            n == v@.len(),
            out@ =~= v@.take(i as int),
        decreases n - i,
    {
        out.push(v[i]);
        proof {
            assert(out@ =~= v@.take(i + 1 as int));
        }
        i = i + 1;
    }
    proof {
        assert(v@.take(n as int) =~= v@);
    }
    out
}

} // verus!
