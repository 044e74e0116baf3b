//! The executor: a fetch-decode-execute loop over a fixed byte tape, with a
//! run-wide choice between permissive (wrapping) and strict (fatal-on-
//! boundary) semantics.

use vstd::prelude::*;

use crate::token::{lemma_toks_view, prog_wf, toks_view, Token, TokenV};

verus! {

/// Number of byte cells on the tape.
pub const TAPE_LEN: usize = 32768;

/// The five runtime faults. Pointer and cell faults arise only in strict
/// mode; input failure arises whenever the input source cannot supply a byte.
#[derive(Clone, Copy, PartialEq, Eq, Structural, Debug)]
pub enum FaultKind {
    PointerUnderflow,
    PointerOverflow,
    CellOverflow,
    CellUnderflow,
    InputFailure,
}

/// A fatal runtime fault, carrying the 1-based source line of the
/// instruction that raised it.
#[derive(Clone, Copy, PartialEq, Eq, Structural, Debug)]
pub struct Fault {
    pub kind: FaultKind,
    pub line: usize,
}

/// Mathematical view of a `Fault`.
pub ghost struct FaultV {
    pub kind: FaultKind,
    pub line: int,
}

impl View for Fault {
    type V = FaultV;

    open spec fn view(&self) -> FaultV {
        FaultV { kind: self.kind, line: self.line as int }
    }
}

/// The mutable machine state of one run: the tape, the data pointer and the
/// instruction pointer.
pub struct Machine {
    pub tape: Vec<u8>,
    pub dp: usize,
    pub ip: usize,
}

/// Mathematical view of a `Machine`.
pub ghost struct MachineV {
    pub tape: Seq<u8>,
    pub dp: int,
    pub ip: int,
}

impl View for Machine {
    type V = MachineV;

    open spec fn view(&self) -> MachineV {
        MachineV { tape: self.tape@, dp: self.dp as int, ip: self.ip as int }
    }
}

/// A machine state the executor can act on: full-length tape and an
/// in-range data pointer. The instruction pointer may be anywhere; at or
/// past the end of the stream it means a normal halt.
pub open spec fn mach_wf(m: MachineV) -> bool {
    &&& m.tape.len() == TAPE_LEN
    &&& 0 <= m.dp < TAPE_LEN
    &&& 0 <= m.ip
}

/// The machine state a run starts from: zeroed tape, both pointers at 0.
pub open spec fn init_mach() -> MachineV {
    MachineV { tape: Seq::new(TAPE_LEN as nat, |k: int| 0u8), dp: 0, ip: 0 }
}

/// What executing one instruction does.
pub ghost enum StepV {
    /// The machine advanced with no outside effect.
    Next(MachineV),
    /// The machine advanced and emitted one output byte.
    Out(MachineV, u8),
    /// The current instruction reads input and none was supplied.
    NeedInput,
    /// A fatal fault; the machine is unchanged.
    Fault(FaultV),
    /// The instruction pointer is past the end: normal termination.
    Halt,
}

/// One step of the machine over program `prog`. For an input instruction
/// the byte to store is taken from `inp`; every other opcode ignores `inp`.
/// An opcode outside the instruction set is skipped, as defensive dead code:
/// the assembler never emits one.
pub open spec fn spec_step(prog: Seq<TokenV>, strict: bool, m: MachineV, inp: Option<u8>) -> StepV {
    if !(0 <= m.ip < prog.len()) {
        StepV::Halt
    } else {
        let t = prog[m.ip];
        if t.opcode == '<' {
            if m.dp > 0 {
                StepV::Next(MachineV { dp: m.dp - 1, ip: m.ip + 1, ..m })
            } else if strict {
                StepV::Fault(FaultV { kind: FaultKind::PointerUnderflow, line: t.line })
            } else {
                StepV::Next(MachineV { dp: TAPE_LEN - 1, ip: m.ip + 1, ..m })
            }
        } else if t.opcode == '>' {
            if m.dp < TAPE_LEN - 1 {
                StepV::Next(MachineV { dp: m.dp + 1, ip: m.ip + 1, ..m })
            } else if strict {
                StepV::Fault(FaultV { kind: FaultKind::PointerOverflow, line: t.line })
            } else {
                StepV::Next(MachineV { dp: 0, ip: m.ip + 1, ..m })
            }
        } else if t.opcode == '+' {
            let cell = m.tape[m.dp];
            if cell == 255 {
                if strict {
                    StepV::Fault(FaultV { kind: FaultKind::CellOverflow, line: t.line })
                } else {
                    StepV::Next(MachineV { tape: m.tape.update(m.dp, 0u8), ip: m.ip + 1, ..m })
                }
            } else {
                StepV::Next(
                    MachineV { tape: m.tape.update(m.dp, (cell + 1) as u8), ip: m.ip + 1, ..m },
                )
            }
        } else if t.opcode == '-' {
            let cell = m.tape[m.dp];
            if cell == 0 {
                if strict {
                    StepV::Fault(FaultV { kind: FaultKind::CellUnderflow, line: t.line })
                } else {
                    StepV::Next(MachineV { tape: m.tape.update(m.dp, 255u8), ip: m.ip + 1, ..m })
                }
            } else {
                StepV::Next(
                    MachineV { tape: m.tape.update(m.dp, (cell - 1) as u8), ip: m.ip + 1, ..m },
                )
            }
        } else if t.opcode == '.' {
            StepV::Out(MachineV { ip: m.ip + 1, ..m }, m.tape[m.dp])
        } else if t.opcode == ',' {
            match inp {
                Some(b) => StepV::Next(MachineV { tape: m.tape.update(m.dp, b), ip: m.ip + 1, ..m }),
                None => StepV::NeedInput,
            }
        } else if t.opcode == '[' {
            if m.tape[m.dp] == 0 {
                StepV::Next(MachineV { ip: t.jump_addr.unwrap() + 1, ..m })
            } else {
                StepV::Next(MachineV { ip: m.ip + 1, ..m })
            }
        } else if t.opcode == ']' {
            if m.tape[m.dp] != 0 {
                StepV::Next(MachineV { ip: t.jump_addr.unwrap() + 1, ..m })
            } else {
                StepV::Next(MachineV { ip: m.ip + 1, ..m })
            }
        } else {
            StepV::Next(MachineV { ip: m.ip + 1, ..m })
        }
    }
}

/// What `step` reports back to its caller.
#[derive(Clone, Copy, PartialEq, Eq, Structural, Debug)]
pub enum StepResult {
    Next,
    Out(u8),
    NeedInput,
    Fault(Fault),
    Halt,
}

/// A zeroed machine, ready to run a program.
pub fn new_machine() -> (m: Machine)
    ensures
        m@ == init_mach(),
        mach_wf(m@),
{
    let mut tape: Vec<u8> = Vec::new();
    let mut i: usize = 0;
    while i < TAPE_LEN
        invariant
            0 <= i <= TAPE_LEN,
            tape@.len() == i,
            forall|k: int| 0 <= k < i ==> tape@[k] == 0u8,
        decreases TAPE_LEN - i,
    {
        tape.push(0u8);
        i = i + 1;
    }
    proof {
        assert(tape@ =~= init_mach().tape);
    }
    Machine { tape, dp: 0, ip: 0 }
}

/// Executes exactly one instruction, mirroring `spec_step`. For an input
/// instruction the caller supplies the byte in `inp`; if it is absent the
/// machine is left unchanged and `NeedInput` is returned.
pub fn step(m: &mut Machine, prog: &Vec<Token>, strict: bool, inp: Option<u8>) -> (r: StepResult)
    requires
        mach_wf(old(m)@),
        prog_wf(toks_view(prog@)),
    ensures
        mach_wf(final(m)@),
        match spec_step(toks_view(prog@), strict, old(m)@, inp) {
            StepV::Next(m2) => r is Next && final(m)@ == m2,
            StepV::Out(m2, b) => r == StepResult::Out(b) && final(m)@ == m2,
            StepV::NeedInput => r is NeedInput && final(m)@ == old(m)@,
            StepV::Fault(f) => (r matches StepResult::Fault(g) && g@ == f) && final(m)@ == old(m)@,
            StepV::Halt => r is Halt && final(m)@ == old(m)@,
        },
{
    let ghost pv = toks_view(prog@);
    proof {
        lemma_toks_view(prog@);
    }
    if m.ip >= prog.len() {
        return StepResult::Halt;
    }
    let opcode = prog[m.ip].opcode;
    let line = prog[m.ip].line;
    proof {
        assert(pv[m.ip as int] == prog@[m.ip as int]@);
    }
    if opcode == '<' {
        if m.dp > 0 {
            m.dp = m.dp - 1;
        } else if strict {
            return StepResult::Fault(Fault { kind: FaultKind::PointerUnderflow, line });
        } else {
            m.dp = TAPE_LEN - 1;
        }
        m.ip = m.ip + 1;
        StepResult::Next
    } else if opcode == '>' {
        if m.dp < TAPE_LEN - 1 {
            m.dp = m.dp + 1;
        } else if strict {
            return StepResult::Fault(Fault { kind: FaultKind::PointerOverflow, line });
        } else {
            m.dp = 0;
        }
        m.ip = m.ip + 1;
        StepResult::Next
    } else if opcode == '+' {
        let cell = m.tape[m.dp];
        if cell == 255 {
            if strict {
                return StepResult::Fault(Fault { kind: FaultKind::CellOverflow, line });
            }
            m.tape[m.dp] = 0;
        } else {
            m.tape[m.dp] = cell + 1;
        }
        m.ip = m.ip + 1;
        StepResult::Next
    } else if opcode == '-' {
        let cell = m.tape[m.dp];
        if cell == 0 {
            if strict {
                return StepResult::Fault(Fault { kind: FaultKind::CellUnderflow, line });
            }
            m.tape[m.dp] = 255;
        } else {
            m.tape[m.dp] = cell - 1;
        }
        m.ip = m.ip + 1;
        StepResult::Next
    } else if opcode == '.' {
        let b = m.tape[m.dp];
        m.ip = m.ip + 1;
        StepResult::Out(b)
    } else if opcode == ',' {
        match inp {
            Some(b) => {
                m.tape[m.dp] = b;
                m.ip = m.ip + 1;
                StepResult::Next
            },
            None => StepResult::NeedInput,
        }
    } else if opcode == '[' {
        let j = match prog[m.ip].jump_addr {
            Some(j) => j,
            None => {
                proof {
                    assert(false);
                }
                0
            },
        };
        if m.tape[m.dp] == 0 {
            m.ip = j + 1;
        } else {
            m.ip = m.ip + 1;
        }
        StepResult::Next
    } else if opcode == ']' {
        let j = match prog[m.ip].jump_addr {
            Some(j) => j,
            None => {
                proof {
                    assert(false);
                }
                0
            },
        };
        if m.tape[m.dp] != 0 {
            m.ip = j + 1;
        } else {
            m.ip = m.ip + 1;
        }
        StepResult::Next
    } else {
        m.ip = m.ip + 1;
        StepResult::Next
    }
}

/// How a bounded run ended.
#[derive(Clone, Copy, PartialEq, Eq, Structural, Debug)]
pub enum RunStatus {
    /// The instruction pointer ran off the end of the stream.
    Done,
    /// A fatal runtime fault stopped the run.
    Faulted(Fault),
    /// The step budget was exhausted before the program halted.
    OutOfSteps,
}

/// Mathematical view of a `RunStatus`.
pub ghost enum RunStatusV {
    Done,
    Faulted(FaultV),
    OutOfSteps,
}

impl View for RunStatus {
    type V = RunStatusV;

    open spec fn view(&self) -> RunStatusV {
        match *self {
            RunStatus::Done => RunStatusV::Done,
            RunStatus::Faulted(f) => RunStatusV::Faulted(f@),
            RunStatus::OutOfSteps => RunStatusV::OutOfSteps,
        }
    }
}

/// Runs the machine for at most `fuel` instructions, consuming bytes of
/// `inp` at input instructions and accumulating output after `out`. An
/// exhausted input source is the input-failure fault, reported with the
/// input instruction's line. The `NeedInput` and `Halt` arms are
/// unreachable: input is supplied exactly at input instructions, and the
/// halted case is handled before stepping.
pub open spec fn spec_exec(
    prog: Seq<TokenV>,
    strict: bool,
    m: MachineV,
    inp: Seq<u8>,
    out: Seq<u8>,
    fuel: nat,
) -> (RunStatusV, Seq<u8>)
    decreases fuel,
{
    if m.ip >= prog.len() {
        (RunStatusV::Done, out)
    } else if fuel == 0 {
        (RunStatusV::OutOfSteps, out)
    } else {
        let needs = 0 <= m.ip && prog[m.ip].opcode == ',';
        if needs && inp.len() == 0 {
            (
                RunStatusV::Faulted(
                    FaultV { kind: FaultKind::InputFailure, line: prog[m.ip].line },
                ),
                out,
            )
        } else {
            let given = if needs {
                Some(inp[0])
            } else {
                None
            };
            let rest = if needs {
                inp.drop_first()
            } else {
                inp
            };
            match spec_step(prog, strict, m, given) {
                StepV::Next(m2) => spec_exec(prog, strict, m2, rest, out, (fuel - 1) as nat),
                StepV::Out(m2, b) => spec_exec(
                    prog,
                    strict,
                    m2,
                    rest,
                    out.push(b),
                    (fuel - 1) as nat,
                ),
                StepV::Fault(f) => (RunStatusV::Faulted(f), out),
                StepV::NeedInput => (RunStatusV::Done, out),
                StepV::Halt => (RunStatusV::Done, out),
            }
        }
    }
}

/// Runs a whole program against a fixed input, from a fresh machine, for at
/// most `max_steps` instructions. Returns how the run ended and every byte
/// it output on the way, exactly as `spec_exec` states it.
pub fn run_brainfuck(prog: &Vec<Token>, strict: bool, input: &Vec<u8>, max_steps: u64) -> (r: (
    RunStatus,
    Vec<u8>,
))
    requires
        prog_wf(toks_view(prog@)),
    ensures
        (r.0@, r.1@) == spec_exec(
            toks_view(prog@),
            strict,
            init_mach(),
            input@,
            Seq::empty(),
            max_steps as nat,
        ),
{
    let ghost pv = toks_view(prog@);
    proof {
        lemma_toks_view(prog@);
    }
    let ghost goal = spec_exec(pv, strict, init_mach(), input@, Seq::empty(), max_steps as nat);
    let mut m = new_machine();
    let mut out: Vec<u8> = Vec::new();
    let mut pos: usize = 0;
    let mut steps: u64 = 0;
    proof {
        assert(input@.skip(0) =~= input@);
        assert(out@ =~= Seq::<u8>::empty());
    }
    loop
        invariant
            mach_wf(m@),
            prog_wf(pv),
            pv == toks_view(prog@),
            pv.len() == prog.len(),
            0 <= pos <= input.len(),
            0 <= steps <= max_steps,
            spec_exec(pv, strict, m@, input@.skip(pos as int), out@, (max_steps - steps) as nat)
                == goal,
            goal == spec_exec(pv, strict, init_mach(), input@, Seq::empty(), max_steps as nat),
        decreases max_steps - steps,
    {
        let ghost fuel = (max_steps - steps) as nat;
        let ghost m0 = m@;
        let ghost rest0 = input@.skip(pos as int);
        let ghost out0 = out@;
        if m.ip >= prog.len() {
            proof {
                assert(spec_exec(pv, strict, m0, rest0, out0, fuel) == (RunStatusV::Done, out0));
            }
            return (RunStatus::Done, out);
        }
        if steps == max_steps {
            proof {
                assert(spec_exec(pv, strict, m0, rest0, out0, fuel) == (
                    RunStatusV::OutOfSteps,
                    out0,
                ));
            }
            return (RunStatus::OutOfSteps, out);
        }
        proof {
            lemma_toks_view(prog@);
            assert(pv[m.ip as int] == prog@[m.ip as int]@);
        }
        let needs = prog[m.ip].opcode == ',';
        if needs && pos == input.len() {
            let line = prog[m.ip].line;
            proof {
                assert(rest0.len() == 0);
                assert(spec_exec(pv, strict, m0, rest0, out0, fuel) == (
                    RunStatusV::Faulted(
                        FaultV { kind: FaultKind::InputFailure, line: line as int },
                    ),
                    out0,
                ));
            }
            return (RunStatus::Faulted(Fault { kind: FaultKind::InputFailure, line }), out);
        }
        let given: Option<u8> = if needs {
            Some(input[pos])
        } else {
            None
        };
        proof {
            if needs {
                assert(rest0[0] == input@[pos as int]);
            }
        }
        let r = step(&mut m, prog, strict, given);
        let ghost rest1 = if needs {
            rest0.drop_first()
        } else {
            rest0
        };
        proof {
            if needs {
                assert(rest1 =~= input@.skip(pos as int + 1));
            }
        }
        match r {
            StepResult::Next => {
                proof {
                    assert(spec_exec(pv, strict, m0, rest0, out0, fuel) == spec_exec(
                        pv,
                        strict,
                        m@,
                        rest1,
                        out0,
                        (fuel - 1) as nat,
                    ));
                }
            },
            StepResult::Out(b) => {
                out.push(b);
                proof {
                    assert(spec_exec(pv, strict, m0, rest0, out0, fuel) == spec_exec(
                        pv,
                        strict,
                        m@,
                        rest1,
                        out0.push(b),
                        (fuel - 1) as nat,
                    ));
                }
            },
            StepResult::Fault(f) => {
                proof {
                    assert(spec_exec(pv, strict, m0, rest0, out0, fuel) == (
                        RunStatusV::Faulted(f@),
                        out0,
                    ));
                }
                return (RunStatus::Faulted(f), out);
            },
            StepResult::NeedInput => {
                proof {
                    assert(false);
                }
                return (RunStatus::Done, out);
            },
            StepResult::Halt => {
                proof {
                    assert(false);
                }
                return (RunStatus::Done, out);
            },
        }
        if needs {
            pos = pos + 1;
        }
        steps = steps + 1;
    }
}

/// Law: in permissive mode a step never faults, and each of the four
/// boundary conditions wraps: moving left from cell 0 lands on the last
/// cell, moving right from the last cell lands on cell 0, incrementing 255
/// yields 0, and decrementing 0 yields 255.
pub proof fn lemma_permissive_wraps(prog: Seq<TokenV>, m: MachineV, inp: Option<u8>)
    requires
        mach_wf(m),
        0 <= m.ip < prog.len(),
    ensures
        !(spec_step(prog, false, m, inp) is Fault),
        prog[m.ip].opcode == '<' && m.dp == 0 ==> spec_step(prog, false, m, inp) == StepV::Next(
            MachineV { dp: TAPE_LEN - 1, ip: m.ip + 1, ..m },
        ),
        prog[m.ip].opcode == '>' && m.dp == TAPE_LEN - 1 ==> spec_step(prog, false, m, inp)
            == StepV::Next(MachineV { dp: 0, ip: m.ip + 1, ..m }),
        prog[m.ip].opcode == '+' && m.tape[m.dp] == 255 ==> spec_step(prog, false, m, inp)
            == StepV::Next(MachineV { tape: m.tape.update(m.dp, 0u8), ip: m.ip + 1, ..m }),
        prog[m.ip].opcode == '-' && m.tape[m.dp] == 0 ==> spec_step(prog, false, m, inp)
            == StepV::Next(MachineV { tape: m.tape.update(m.dp, 255u8), ip: m.ip + 1, ..m }),
{
}

/// Law: in strict mode each of the four boundary conditions raises its
/// fault, naming the instruction's source line, and the machine does not
/// advance.
pub proof fn lemma_strict_faults(prog: Seq<TokenV>, m: MachineV, inp: Option<u8>)
    requires
        mach_wf(m),
        0 <= m.ip < prog.len(),
    ensures
        prog[m.ip].opcode == '<' && m.dp == 0 ==> spec_step(prog, true, m, inp) == StepV::Fault(
            FaultV { kind: FaultKind::PointerUnderflow, line: prog[m.ip].line },
        ),
        prog[m.ip].opcode == '>' && m.dp == TAPE_LEN - 1 ==> spec_step(prog, true, m, inp)
            == StepV::Fault(FaultV { kind: FaultKind::PointerOverflow, line: prog[m.ip].line }),
        prog[m.ip].opcode == '+' && m.tape[m.dp] == 255 ==> spec_step(prog, true, m, inp)
            == StepV::Fault(FaultV { kind: FaultKind::CellOverflow, line: prog[m.ip].line }),
        prog[m.ip].opcode == '-' && m.tape[m.dp] == 0 ==> spec_step(prog, true, m, inp)
            == StepV::Fault(FaultV { kind: FaultKind::CellUnderflow, line: prog[m.ip].line }),
{
}

/// Law: a faulting step stops the whole run at once: the run's outcome is
/// that fault and no further instruction changes the output.
pub proof fn lemma_fault_stops_run(
    prog: Seq<TokenV>,
    strict: bool,
    m: MachineV,
    inp: Seq<u8>,
    out: Seq<u8>,
    fuel: nat,
    f: FaultV,
)
    requires
        0 <= m.ip < prog.len(),
        fuel > 0,
        prog[m.ip].opcode != ',',
        spec_step(prog, strict, m, None) == StepV::Fault(f),
    ensures
        spec_exec(prog, strict, m, inp, out, fuel) == (RunStatusV::Faulted(f), out),
{
}

} // verus!
