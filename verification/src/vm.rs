//! The stack machine that interprets the bytecode.
//!
//! Values are carried as the 64-bit encodings of IEEE-754 binary64 numbers.
//! The machine itself decodes the stream, keeps the operand stack, detects
//! every error the format defines, and performs the purely structural
//! operations (integer pushes, negation, the saved answer). The four
//! arithmetic operators and the five functions it cannot compute on
//! encodings; it hands each such request to the caller through [`Step`] and
//! takes the computed encoding back through [`provide`], whose outcome it
//! then classifies. The whole transition behaviour is specified by
//! [`spec_run`] and [`spec_provide`].
//!
//! [`provide`]: VirtualMachine::provide

use vstd::prelude::*;

use crate::encoding::{
    dbl_bits_of_i8, dbl_bits_of_small, read_le_u64, spec_is_finite_bits, spec_is_nan_bits,
    spec_is_zero_bits, spec_le_val, spec_negate_bits, is_finite_bits, is_nan_bits, is_zero_bits,
    negate_bits,
};
use crate::lexer::FuncType;
use crate::misc::{spec_u8_as_i8, u8_as_i8};

verus! {

/// Arguments of a failed function application, as encodings.
#[derive(Debug, Clone, Copy, PartialEq, Eq, Structural)]
pub enum FuncArgs {
    Arg1(u64),
    Arg2(u64, u64),
}

/// Interpretation errors.
#[derive(Debug, Clone, Copy, PartialEq, Eq, Structural)]
pub enum Error {
    DivisionByZero,
    EmptyStack,
    InvalidFunctionArgs { func_type: FuncType, func_args: FuncArgs },
    AnsNotAvailable,
}

impl Error {
    /// A stable rendering of the error kind for display.
    pub fn describe(&self) -> (r: String)
        ensures
            r@ == (match self {
                Error::DivisionByZero => "division by zero"@,
                Error::EmptyStack => "empty stack"@,
                Error::InvalidFunctionArgs { .. } => "invalid function arguments"@,
                Error::AnsNotAvailable => "no previous answer"@,
            }),
    {
        match self {
            Error::DivisionByZero => "division by zero".to_owned(),
            Error::EmptyStack => "empty stack".to_owned(),
            Error::InvalidFunctionArgs { .. } => "invalid function arguments".to_owned(),
            Error::AnsNotAvailable => "no previous answer".to_owned(),
        }
    }
}

/// A computation the machine needs from its caller: the operands are
/// encodings popped off the stack, the answer comes back through
/// [`VirtualMachine::provide`].
#[derive(Debug, Clone, Copy, PartialEq, Eq, Structural)]
pub enum Request {
    /// `lhs op rhs`, for `op` one of `Plus`, `Minus`, `Mult`, `Div` (the
    /// opcode byte). A division by zero never reaches the caller.
    Binary { op: u8, lhs: u64, rhs: u64 },
    /// A one-argument function applied to `arg`.
    Call1 { func: FuncType, arg: u64 },
    /// `base` raised to `exponent`.
    Call2 { func: FuncType, base: u64, exponent: u64 },
}

/// Where one run of the machine stands.
#[derive(Debug, Clone, Copy, PartialEq, Eq, Structural)]
pub enum Step {
    /// The caller must compute the request and call `provide`.
    Request(Request),
    /// The program finished; the encoding of its result.
    Done(u64),
    /// The program failed.
    Failed(Error),
    /// The stream is malformed: a byte that is no opcode, a payload past
    /// the end, or an operand stack too short for an operation. A
    /// conformant compiler never emits such a stream; the interpreter of
    /// the original format would abort the process here.
    Stuck,
}

/// Mathematical image of the machine.
pub ghost struct VmState {
    pub ip: int,
    pub stack: Seq<u64>,
    pub ans: Option<u64>,
    pub pending: Option<Request>,
}

/// Run from state `s` until the machine finishes, fails, goes stuck, or
/// needs the caller: the state reached and the step reported.
pub open spec fn spec_run(bytes: Seq<u8>, s: VmState) -> (VmState, Step)
    decreases bytes.len() - s.ip,
{
    if !(0 <= s.ip && s.ip < bytes.len()) {
        if s.stack.len() == 0 {
            (s, Step::Failed(Error::EmptyStack))
        } else {
            (
                VmState { ip: s.ip, stack: s.stack.drop_last(), ans: s.ans, pending: s.pending },
                Step::Done(s.stack.last()),
            )
        }
    } else {
        let op = bytes[s.ip];
        if op == 0 {
            if s.ip + 9 <= bytes.len() {
                spec_run(
                    bytes,
                    VmState {
                        ip: s.ip + 9,
                        stack: s.stack.push(spec_le_val(bytes.subrange(s.ip + 1, s.ip + 9))),
                        ans: s.ans,
                        pending: s.pending,
                    },
                )
            } else {
                (s, Step::Stuck)
            }
        } else if 1 <= op && op <= 4 {
            if s.stack.len() < 2 {
                (s, Step::Stuck)
            } else {
                let rhs = s.stack.last();
                let lhs = s.stack.drop_last().last();
                let popped = s.stack.drop_last().drop_last();
                if op == 4 && spec_is_zero_bits(rhs) {
                    (
                        VmState { ip: s.ip, stack: popped, ans: s.ans, pending: s.pending },
                        Step::Failed(Error::DivisionByZero),
                    )
                } else {
                    (
                        VmState {
                            ip: s.ip + 1,
                            stack: popped,
                            ans: s.ans,
                            pending: Some(Request::Binary { op, lhs, rhs }),
                        },
                        Step::Request(Request::Binary { op, lhs, rhs }),
                    )
                }
            }
        } else if op == 5 {
            if s.stack.len() < 1 {
                (s, Step::Stuck)
            } else {
                spec_run(
                    bytes,
                    VmState {
                        ip: s.ip + 1,
                        stack: s.stack.drop_last().push(spec_negate_bits(s.stack.last())),
                        ans: s.ans,
                        pending: s.pending,
                    },
                )
            }
        } else if op == 6 {
            if s.ip + 2 <= bytes.len() && bytes[s.ip + 1] <= 4 {
                let f = spec_func_of(bytes[s.ip + 1]);
                if f is Pow {
                    if s.stack.len() < 2 {
                        (s, Step::Stuck)
                    } else {
                        let exponent = s.stack.last();
                        let base = s.stack.drop_last().last();
                        (
                            VmState {
                                ip: s.ip + 2,
                                stack: s.stack.drop_last().drop_last(),
                                ans: s.ans,
                                pending: Some(Request::Call2 { func: f, base, exponent }),
                            },
                            Step::Request(Request::Call2 { func: f, base, exponent }),
                        )
                    }
                } else {
                    if s.stack.len() < 1 {
                        (s, Step::Stuck)
                    } else {
                        let arg = s.stack.last();
                        (
                            VmState {
                                ip: s.ip + 2,
                                stack: s.stack.drop_last(),
                                ans: s.ans,
                                pending: Some(Request::Call1 { func: f, arg }),
                            },
                            Step::Request(Request::Call1 { func: f, arg }),
                        )
                    }
                }
            } else {
                (s, Step::Stuck)
            }
        } else if op == 7 {
            match s.ans {
                Some(v) => spec_run(
                    bytes,
                    VmState {
                        ip: s.ip + 1,
                        stack: s.stack.push(v),
                        ans: s.ans,
                        pending: s.pending,
                    },
                ),
                None => (s, Step::Failed(Error::AnsNotAvailable)),
            }
        } else if op == 8 {
            if s.ip + 2 <= bytes.len() {
                spec_run(
                    bytes,
                    VmState {
                        ip: s.ip + 2,
                        stack: s.stack.push(
                            dbl_bits_of_small(spec_u8_as_i8(bytes[s.ip + 1])),
                        ),
                        ans: s.ans,
                        pending: s.pending,
                    },
                )
            } else {
                (s, Step::Stuck)
            }
        } else {
            (s, Step::Stuck)
        }
    }
}

/// The function named by a byte in `[0, 4]`.
pub open spec fn spec_func_of(b: u8) -> FuncType {
    if b == 0 {
        FuncType::Sqrt
    } else if b == 1 {
        FuncType::Log
    } else if b == 2 {
        FuncType::Sin
    } else if b == 3 {
        FuncType::Cos
    } else {
        FuncType::Pow
    }
}

/// Take a computed encoding back: the natural logarithm must be finite
/// and the square root must not be a NaN, else the application fails with
/// its original argument. Every other answer is pushed: sine, cosine and
/// `pow` propagate a NaN freely.
pub open spec fn spec_provide(s: VmState, bits: u64) -> (VmState, Option<Error>) {
    match s.pending {
        None => (s, None),
        Some(req) => {
            let cleared = VmState { ip: s.ip, stack: s.stack, ans: s.ans, pending: None };
            let pushed = VmState {
                ip: s.ip,
                stack: s.stack.push(bits),
                ans: s.ans,
                pending: None,
            };
            match req {
                Request::Binary { .. } => (pushed, None),
                Request::Call1 { func, arg } => if func is Log && !spec_is_finite_bits(bits) {
                    (
                        cleared,
                        Some(
                            Error::InvalidFunctionArgs {
                                func_type: func,
                                func_args: FuncArgs::Arg1(arg),
                            },
                        ),
                    )
                } else if func is Sqrt && spec_is_nan_bits(bits) {
                    (
                        cleared,
                        Some(
                            Error::InvalidFunctionArgs {
                                func_type: func,
                                func_args: FuncArgs::Arg1(arg),
                            },
                        ),
                    )
                } else {
                    (pushed, None)
                },
                Request::Call2 { .. } => (pushed, None),
            }
        },
    }
}

/// Starting capacity of the operand stack.
const STACK_INITIAL_CAPACITY: usize = 256;

/// The machine: an instruction pointer, the operand stack of encodings, the
/// saved answer, and the request it is waiting on, if any.
pub struct VirtualMachine {
    instruction_pointer: usize,
    stack: Vec<u64>,
    ans: Option<u64>,
    pending: Option<Request>,
}

/// The mirror state a machine stands in.
pub open spec fn vm_of(vm: VirtualMachine) -> VmState {
    VmState { ip: vm.spec_ip(), stack: vm.spec_stack(), ans: vm.spec_ans(), pending: vm.spec_pending() }
}

impl Default for VirtualMachine {
    fn default() -> (vm: Self)
        ensures
            vm_of(vm) == (VmState {
                ip: 0,
                stack: Seq::<u64>::empty(),
                ans: None,
                pending: None,
            }),
    {
        VirtualMachine {
            instruction_pointer: 0,
            stack: Vec::with_capacity(STACK_INITIAL_CAPACITY),
            ans: None,
            pending: None,
        }
    }
}

impl VirtualMachine {
    pub closed spec fn spec_ip(&self) -> int {
        self.instruction_pointer as int
    }

    pub closed spec fn spec_stack(&self) -> Seq<u64> {
        self.stack@
    }

    pub closed spec fn spec_ans(&self) -> Option<u64> {
        self.ans
    }

    pub closed spec fn spec_pending(&self) -> Option<Request> {
        self.pending
    }

    /// A fresh machine with the given saved answer.
    pub fn new(ans: Option<u64>) -> (vm: Self)
        ensures
            vm_of(vm) == (VmState {
                ip: 0,
                stack: Seq::<u64>::empty(),
                ans,
                pending: None,
            }),
    {
        VirtualMachine { instruction_pointer: 0, stack: Vec::with_capacity(STACK_INITIAL_CAPACITY), ans, pending: None }
    }

    /// Rewind the machine for the next run: zero the pointer, empty the
    /// stack (capacity kept), install the new answer, and forget any
    /// outstanding request.
    pub fn reset(&mut self, ans: Option<u64>)
        ensures
            vm_of(*final(self)) == (VmState {
                ip: 0,
                stack: Seq::<u64>::empty(),
                ans,
                pending: None,
            }),
    {
        self.instruction_pointer = 0;
        self.stack.clear();
        self.ans = ans;
        self.pending = None;
    }

    /// Run the loaded program until it finishes, fails, goes stuck, or
    /// needs the caller's arithmetic.
    pub fn step(&mut self, opcodes: &[u8]) -> (r: Step)
        requires
            old(self).spec_pending() is None,
        ensures
            ({
                let (s2, out) = spec_run(opcodes@, vm_of(*old(self)));
                vm_of(*final(self)) == s2 && r == out
            }),
    {
        loop
            invariant
                self.spec_pending() is None,
                spec_run(opcodes@, vm_of(*old(self))) == spec_run(opcodes@, vm_of(*self)),
            decreases opcodes@.len() - self.spec_ip(),
        {
            if self.instruction_pointer >= opcodes.len() {
                match self.stack.pop() {
                    Some(v) => {
                        return Step::Done(v);
                    },
                    None => {
                        return Step::Failed(Error::EmptyStack);
                    },
                }
            }
            let ip: usize = self.instruction_pointer;
            let op: u8 = opcodes[ip];
            if op == 0 {
                if opcodes.len() - ip < 9 {
                    return Step::Stuck;
                }
                let v: u64 = read_le_u64(opcodes, ip + 1);
                self.stack.push(v);
                self.instruction_pointer = ip + 9;
            } else if op >= 1 && op <= 4 {
                if self.stack.len() < 2 {
                    return Step::Stuck;
                }
                let rhs: u64 = self.stack.pop().unwrap();
                let lhs: u64 = self.stack.pop().unwrap();
                if op == 4 && is_zero_bits(rhs) {
                    return Step::Failed(Error::DivisionByZero);
                }
                self.pending = Some(Request::Binary { op, lhs, rhs });
                self.instruction_pointer = ip + 1;
                return Step::Request(Request::Binary { op, lhs, rhs });
            } else if op == 5 {
                if self.stack.len() < 1 {
                    return Step::Stuck;
                }
                let top: u64 = self.stack.pop().unwrap();
                self.stack.push(negate_bits(top));
                self.instruction_pointer = ip + 1;
            } else if op == 6 {
                if opcodes.len() - ip < 2 || opcodes[ip + 1] > 4 {
                    return Step::Stuck;
                }
                let fb: u8 = opcodes[ip + 1];
                let f: FuncType = if fb == 0 {
                    FuncType::Sqrt
                } else if fb == 1 {
                    FuncType::Log
                } else if fb == 2 {
                    FuncType::Sin
                } else if fb == 3 {
                    FuncType::Cos
                } else {
                    FuncType::Pow
                };
                if matches!(f, FuncType::Pow) {
                    if self.stack.len() < 2 {
                        return Step::Stuck;
                    }
                    let exponent: u64 = self.stack.pop().unwrap();
                    let base: u64 = self.stack.pop().unwrap();
                    self.pending = Some(Request::Call2 { func: f, base, exponent });
                    self.instruction_pointer = ip + 2;
                    return Step::Request(Request::Call2 { func: f, base, exponent });
                } else {
                    if self.stack.len() < 1 {
                        return Step::Stuck;
                    }
                    let arg: u64 = self.stack.pop().unwrap();
                    self.pending = Some(Request::Call1 { func: f, arg });
                    self.instruction_pointer = ip + 2;
                    return Step::Request(Request::Call1 { func: f, arg });
                }
            } else if op == 7 {
                match self.ans {
                    Some(v) => {
                        self.stack.push(v);
                        self.instruction_pointer = ip + 1;
                    },
                    None => {
                        return Step::Failed(Error::AnsNotAvailable);
                    },
                }
            } else if op == 8 {
                if opcodes.len() - ip < 2 {
                    return Step::Stuck;
                }
                let b: u8 = opcodes[ip + 1];
                self.stack.push(dbl_bits_of_i8(u8_as_i8(b)));
                self.instruction_pointer = ip + 2;
            } else {
                return Step::Stuck;
            }
        }
    }

    /// Hand back the encoding computed for the outstanding request.
    pub fn provide(&mut self, bits: u64) -> (r: Result<(), Error>)
        requires
            old(self).spec_pending() is Some,
        ensures
            ({
                let (s2, out) = spec_provide(vm_of(*old(self)), bits);
                vm_of(*final(self)) == s2 && (match out {
                    None => r is Ok,
                    Some(e) => r matches Err(x) && x == e,
                })
            }),
    {
        let p: Option<Request> = self.pending;
        self.pending = None;
        match p {
            None => Ok(()),
            Some(Request::Binary { .. }) => {
                self.stack.push(bits);
                Ok(())
            },
            Some(Request::Call1 { func, arg }) => {
                if matches!(func, FuncType::Log) && !is_finite_bits(bits) {
                    Err(Error::InvalidFunctionArgs { func_type: func, func_args: FuncArgs::Arg1(arg) })
                } else if matches!(func, FuncType::Sqrt) && is_nan_bits(bits) {
                    Err(Error::InvalidFunctionArgs { func_type: func, func_args: FuncArgs::Arg1(arg) })
                } else {
                    self.stack.push(bits);
                    Ok(())
                }
            },
            Some(Request::Call2 { .. }) => {
                self.stack.push(bits);
                Ok(())
            },
        }
    }
}


/// Whether a code block runs cleanly from operand depth `d` — every
/// payload complete, every operation fed — and the depth it leaves behind.
/// The compiler of this crate aims to emit blocks with `wf_code(e, 0) ==
/// Some(1)`; the answer says nothing about the defined failures (a division
/// by zero, a bad function argument, a missing answer), only that the
/// machine never goes `Stuck`.
pub open spec fn wf_code(e: Seq<u8>, d: int) -> Option<int>
    decreases e.len(),
{
    if e.len() == 0 {
        Some(d)
    } else {
        let op = e[0];
        if op == 0 {
            if e.len() >= 9 {
                wf_code(e.skip(9), d + 1)
            } else {
                None
            }
        } else if 1 <= op && op <= 4 {
            if d >= 2 {
                wf_code(e.skip(1), d - 1)
            } else {
                None
            }
        } else if op == 5 {
            if d >= 1 {
                wf_code(e.skip(1), d)
            } else {
                None
            }
        } else if op == 6 {
            if e.len() >= 2 && e[1] <= 4 {
                let a = spec_func_of(e[1]).spec_arity() as int;
                if d >= a {
                    wf_code(e.skip(2), d - a + 1)
                } else {
                    None
                }
            } else {
                None
            }
        } else if op == 7 {
            wf_code(e.skip(1), d + 1)
        } else if op == 8 {
            if e.len() >= 2 {
                wf_code(e.skip(2), d + 1)
            } else {
                None
            }
        } else {
            None
        }
    }
}

/// On a clean stream the machine never goes `Stuck`: it finishes, fails in
/// one of the defined ways, or hands out a request from a state that is
/// again clean once the answer is pushed. `EmptyStack` can only be the
/// outcome of a stream that leaves nothing behind, and a finished run pops
/// its one result off a stream that left at least one value.
pub proof fn lemma_clean_stream_never_stuck(bytes: Seq<u8>, s: VmState, m: int)
    requires
        0 <= s.ip <= bytes.len(),
        wf_code(bytes.skip(s.ip), s.stack.len() as int) == Some(m),
        s.pending is None,
    ensures
        ({
            let (s2, out) = spec_run(bytes, s);
            &&& out != Step::Stuck
            &&& (out is Request ==> 0 <= s2.ip <= bytes.len() && s2.pending is Some && wf_code(
                bytes.skip(s2.ip),
                s2.stack.len() + 1int,
            ) == Some(m))
            &&& (out == Step::Failed(Error::EmptyStack) ==> m == 0)
            &&& (out is Done ==> m >= 1)
        }),
    decreases bytes.len() - s.ip,
{
    let e = bytes.skip(s.ip);
    if s.ip == bytes.len() {
        assert(e.len() == 0);
    } else {
        let op = bytes[s.ip];
        assert(e[0] == op);
        if op == 0 {
            assert(e.skip(9) =~= bytes.skip(s.ip + 9));
            let s1 = VmState {
                ip: s.ip + 9,
                stack: s.stack.push(spec_le_val(bytes.subrange(s.ip + 1, s.ip + 9))),
                ans: s.ans,
                pending: s.pending,
            };
            lemma_clean_stream_never_stuck(bytes, s1, m);
        } else if 1 <= op && op <= 4 {
            assert(e.skip(1) =~= bytes.skip(s.ip + 1));
        } else if op == 5 {
            assert(e.skip(1) =~= bytes.skip(s.ip + 1));
            let s1 = VmState {
                ip: s.ip + 1,
                stack: s.stack.drop_last().push(spec_negate_bits(s.stack.last())),
                ans: s.ans,
                pending: s.pending,
            };
            lemma_clean_stream_never_stuck(bytes, s1, m);
        } else if op == 6 {
            assert(e[1] == bytes[s.ip + 1]);
            assert(e.skip(2) =~= bytes.skip(s.ip + 2));
        } else if op == 7 {
            assert(e.skip(1) =~= bytes.skip(s.ip + 1));
            match s.ans {
                Some(v) => {
                    let s1 = VmState {
                        ip: s.ip + 1,
                        stack: s.stack.push(v),
                        ans: s.ans,
                        pending: s.pending,
                    };
                    lemma_clean_stream_never_stuck(bytes, s1, m);
                },
                None => {},
            }
        } else if op == 8 {
            assert(e.skip(2) =~= bytes.skip(s.ip + 2));
            let s1 = VmState {
                ip: s.ip + 2,
                stack: s.stack.push(dbl_bits_of_small(spec_u8_as_i8(bytes[s.ip + 1]))),
                ans: s.ans,
                pending: s.pending,
            };
            lemma_clean_stream_never_stuck(bytes, s1, m);
        }
    }
}

/// Decide whether a whole stream is clean from an empty stack, as
/// [`wf_code`] defines it.
pub fn check_stream(bytes: &[u8]) -> (r: bool)
    ensures
        r == (wf_code(bytes@, 0) is Some),
{
    let n: usize = bytes.len();
    let mut i: usize = 0;
    let mut d: usize = 0;
    proof {
        assert(bytes@.skip(0) =~= bytes@);
    }
    loop
        invariant
            0 <= i <= n,
            n == bytes@.len(),
            d <= i,
            (wf_code(bytes@, 0) is Some) == (wf_code(bytes@.skip(i as int), d as int) is Some),
        decreases n - i,
    {
        if i == n {
            proof {
                assert(bytes@.skip(i as int).len() == 0);
            }
            return true;
        }
        let ghost e = bytes@.skip(i as int);
        let op: u8 = bytes[i];
        proof {
            assert(e[0] == op);
        }
        if op == 0 {
            if n - i < 9 {
                return false;
            }
            proof {
                assert(e.skip(9) =~= bytes@.skip(i + 9));
            }
            i += 9;
            d += 1;
        } else if op >= 1 && op <= 4 {
            if d < 2 {
                return false;
            }
            proof {
                assert(e.skip(1) =~= bytes@.skip(i + 1));
            }
            i += 1;
            d -= 1;
        } else if op == 5 {
            if d < 1 {
                return false;
            }
            proof {
                assert(e.skip(1) =~= bytes@.skip(i + 1));
            }
            i += 1;
        } else if op == 6 {
            if n - i < 2 || bytes[i + 1] > 4 {
                return false;
            }
            let a: usize = if bytes[i + 1] == 4 {
                2
            } else {
                1
            };
            proof {
                assert(e[1] == bytes@[i + 1]);
                assert(a as int == spec_func_of(bytes@[i + 1]).spec_arity() as int);
                assert(e.skip(2) =~= bytes@.skip(i + 2));
            }
            if d < a {
                return false;
            }
            i += 2;
            d = d - a + 1;
        } else if op == 7 {
            proof {
                assert(e.skip(1) =~= bytes@.skip(i + 1));
            }
            i += 1;
            d += 1;
        } else if op == 8 {
            if n - i < 2 {
                return false;
            }
            proof {
                assert(e.skip(2) =~= bytes@.skip(i + 2));
            }
            i += 2;
            d += 1;
        } else {
            return false;
        }
    }
}

} // verus!
