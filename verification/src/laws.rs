//! Laws of the pipeline, stated over the specification mirrors and proved
//! once and for all.

use vstd::prelude::*;

use crate::compiler::{
    cm, spec_advance, spec_compile, spec_consume, spec_emit_number, spec_emit_unary,
    spec_expr_loop, spec_expression, spec_fn_args, spec_lookup, spec_parse_binary,
    spec_parse_fn, spec_parse_group, CompErrV, CState,
};
use crate::decimal::{
    digits_val, exp_val, first_idx, frac_part, has_exp, int_part, mant_of, mant_val, scale_of,
    spec_classify, spec_small_value, wf_number, NumClass,
};
use crate::lexer::{
    is_digit_byte, lemma_scan_bounds, lemma_skip_ws_bounds, spec_num_loop, spec_priority,
    spec_scan, spec_skip_ws, Error as LexError, FuncType, Priority, TokenV,
};
use crate::encoding::{
    dbl_bits_of_small, lemma_le_roundtrip, spec_is_zero_bits, spec_le_bytes,
};
use crate::misc::spec_u8_as_i8;
use crate::vm::{spec_func_of, spec_provide, spec_run, wf_code, Error as VmError, Request, Step, VmState};

verus! {

/// The state of a machine right after `reset(ans)` or `new(ans)`.
pub open spec fn fresh_vm(ans: Option<u64>) -> VmState {
    VmState { ip: 0, stack: Seq::<u64>::empty(), ans, pending: None }
}

/// Compilation is a function of the source bytes and the number table
/// alone: two freshly reset compilers on equal sources with equal tables
/// emit equal bytes with equal outcomes. Re-running a compile after
/// `reset` therefore reproduces it.
pub proof fn lemma_compile_replay(
    src1: Seq<u8>,
    src2: Seq<u8>,
    table1: Seq<(Seq<u8>, u64)>,
    table2: Seq<(Seq<u8>, u64)>,
)
    requires
        src1 == src2,
        table1 == table2,
    ensures
        spec_compile(src1, table1, 0) == spec_compile(src2, table2, 0),
{
}

/// Interpretation is a function of the bytecode and the machine state
/// alone: two machines reset with equal answers take equal steps on equal
/// streams. Re-running an interpretation after `reset` therefore
/// reproduces it.
pub proof fn lemma_run_replay(
    bytes1: Seq<u8>,
    bytes2: Seq<u8>,
    ans1: Option<u64>,
    ans2: Option<u64>,
)
    requires
        bytes1 == bytes2,
        ans1 == ans2,
    ensures
        spec_run(bytes1, fresh_vm(ans1)) == spec_run(bytes2, fresh_vm(ans2)),
{
}

/// The encoding rule for a well-formed literal: the compact `NumberI8`
/// form is used exactly when the literal's value is an integer in
/// `[0, 127]` (a literal is never negative), and its payload byte is that
/// integer; otherwise the eight-byte `Number` form carries the tabulated
/// word.
pub proof fn lemma_number_encoding(d: Seq<u8>, table: Seq<(Seq<u8>, u64)>)
    requires
        wf_number(d),
    ensures
        (spec_small_value(d) matches Some(n) ==> spec_emit_number(d, table) == Ok::<
            Seq<u8>,
            CompErrV,
        >(seq![8u8, n as u8])),
        spec_small_value(d) is None ==> (match spec_lookup(table, d) {
            Some(bits) => spec_emit_number(d, table) == Ok::<Seq<u8>, CompErrV>(
                seq![0u8] + spec_le_bytes(bits),
            ),
            None => spec_emit_number(d, table) == Err::<Seq<u8>, CompErrV>(
                CompErrV::InvalidNumber(d),
            ),
        }),
{
}

/// A literal that denotes an integer in `[0, 127]` compiles to a program
/// that finishes on exactly the binary64 word of that integer: the round
/// trip through the compact encoding is lossless.
pub proof fn lemma_small_literal_round_trip(
    d: Seq<u8>,
    table: Seq<(Seq<u8>, u64)>,
    n: int,
    ans: Option<u64>,
)
    requires
        wf_number(d),
        spec_small_value(d) == Some(n),
    ensures
        spec_emit_number(d, table) matches Ok(e) && spec_run(e, fresh_vm(ans)).1 == Step::Done(
            dbl_bits_of_small(n),
        ),
{
    lemma_number_encoding(d, table);
    // The value of a literal is never negative: it folds digit bytes.
    let m = crate::decimal::mant_of(d);
    let g = crate::decimal::int_part(m) + crate::decimal::frac_part(m);
    assert(crate::decimal::all_digits(g)) by {
        let ip = crate::decimal::int_part(m);
        let fp = crate::decimal::frac_part(m);
        assert(forall|i: int| 0 <= i < ip.len() ==> #[trigger] g[i] == ip[i]);
        assert(forall|i: int|
            ip.len() <= i < g.len() ==> #[trigger] g[i] == fp[i - ip.len()]);
    }
    crate::decimal::lemma_digits_val_bounds(g);
    let k = crate::decimal::scale_of(d);
    if k <= 0 {
        crate::decimal::lemma_pow10_pos((-k) as nat);
        assert(crate::decimal::mant_val(d) * crate::decimal::pow10((-k) as nat) >= 0)
            by (nonlinear_arith)
            requires
                crate::decimal::mant_val(d) >= 0,
                crate::decimal::pow10((-k) as nat) >= 0,
        ;
    } else {
        crate::decimal::lemma_pow10_pos(k as nat);
        vstd::arithmetic::div_mod::lemma_div_pos_is_pos(
            crate::decimal::mant_val(d),
            crate::decimal::pow10(k as nat),
        );
    }
    assert(0 <= n <= 127);
    lemma_small_number_runs(n as u8, ans);
}

/// A `NumberI8` program pushes exactly the binary64 word of its payload
/// integer and finishes on it: the compact encoding loses nothing.
pub proof fn lemma_small_number_runs(n: u8, ans: Option<u64>)
    requires
        n <= 127,
    ensures
        spec_run(seq![8u8, n], fresh_vm(ans)).1 == Step::Done(dbl_bits_of_small(n as int)),
{
    let s = seq![8u8, n];
    let pushed = VmState {
        ip: 2,
        stack: Seq::<u64>::empty().push(dbl_bits_of_small(spec_u8_as_i8(n))),
        ans,
        pending: None,
    };
    assert(spec_u8_as_i8(n) == n as int);
    assert(spec_run(s, fresh_vm(ans)) == spec_run(s, pushed));
    assert(spec_run(s, pushed).1 == Step::Done(dbl_bits_of_small(n as int)));
}

/// A `Number` program pushes back exactly the word whose eight bytes were
/// embedded, and finishes on it: embedding then decoding is the identity.
pub proof fn lemma_word_number_runs(bits: u64, ans: Option<u64>)
    ensures
        spec_run(seq![0u8] + spec_le_bytes(bits), fresh_vm(ans)).1 == Step::Done(bits),
{
    let s = seq![0u8] + spec_le_bytes(bits);
    assert(s.len() == 9);
    assert(s[0] == 0);
    assert(s.subrange(1, 9) =~= spec_le_bytes(bits));
    lemma_le_roundtrip(bits);
    let pushed = VmState { ip: 9, stack: Seq::<u64>::empty().push(bits), ans, pending: None };
    assert(spec_run(s, fresh_vm(ans)) == spec_run(s, pushed));
    assert(spec_run(s, pushed).1 == Step::Done(bits));
}

/// The empty program interprets to `EmptyStack`: nothing was pushed, so
/// there is no result to pop.
pub proof fn lemma_empty_program_fails(ans: Option<u64>)
    ensures
        spec_run(Seq::<u8>::empty(), fresh_vm(ans)).1 == Step::Failed(VmError::EmptyStack),
{
}

/// The empty source compiles, and emits nothing: the failure of an empty
/// evaluation is the machine's, not the compiler's.
pub proof fn lemma_empty_source_compiles(table: Seq<(Seq<u8>, u64)>)
    ensures
        spec_compile(Seq::<u8>::empty(), table, 0) matches Ok(p) && p.1 == Seq::<u8>::empty(),
{
    let src = Seq::<u8>::empty();
    assert(spec_compile(src, table, 0) matches Ok(p) && p.1 =~= Seq::<u8>::empty());
}

/// The answer opcode with no saved answer fails with `AnsNotAvailable`;
/// with a saved answer it finishes on exactly that answer.
pub proof fn lemma_ans_opcode(ans: Option<u64>)
    ensures
        ans is None ==> spec_run(seq![7u8], fresh_vm(ans)).1 == Step::Failed(
            VmError::AnsNotAvailable,
        ),
        ans matches Some(v) ==> spec_run(seq![7u8], fresh_vm(ans)).1 == Step::Done(v),
{
    match ans {
        None => {},
        Some(v) => {
            let s = seq![7u8];
            let pushed = VmState {
                ip: 1,
                stack: Seq::<u64>::empty().push(v),
                ans,
                pending: None,
            };
            assert(spec_run(s, fresh_vm(ans)) == spec_run(s, pushed));
            assert(spec_run(s, pushed).1 == Step::Done(v));
        },
    }
}

/// Dividing by a literal zero fails with `DivisionByZero` before any
/// request reaches the caller.
pub proof fn lemma_division_by_zero(a: u8, ans: Option<u64>)
    requires
        a <= 127,
    ensures
        spec_run(seq![8u8, a, 8u8, 0u8, 4u8], fresh_vm(ans)).1 == Step::Failed(
            VmError::DivisionByZero,
        ),
{
    let s = seq![8u8, a, 8u8, 0u8, 4u8];
    let st1 = VmState {
        ip: 2,
        stack: Seq::<u64>::empty().push(dbl_bits_of_small(spec_u8_as_i8(a))),
        ans,
        pending: None,
    };
    let st2 = VmState {
        ip: 4,
        stack: st1.stack.push(dbl_bits_of_small(spec_u8_as_i8(0u8))),
        ans,
        pending: None,
    };
    assert(spec_run(s, fresh_vm(ans)) == spec_run(s, st1));
    assert(spec_run(s, st1) == spec_run(s, st2));
    assert(dbl_bits_of_small(spec_u8_as_i8(0u8)) == 0);
    assert(st2.stack.last() == 0u64);
    assert(0u64 & 0x7fffffffffffffff == 0) by (bit_vector);
    assert(s[4] == 4u8);
    assert(spec_run(s, st2).1 == Step::Failed(VmError::DivisionByZero));
}


/// Left-associativity of the machine: on the program `a b - c -` the
/// machine asks first for `a - b`, and then combines whatever came back
/// with `c` — never `b - c` first. Subtraction and division streams fold
/// from the left, for all operands.
pub proof fn lemma_left_assoc_requests(x: u64, y: u64, z: u64, opb: u8, r1: u64, ans: Option<u64>)
    requires
        opb == 2 || (opb == 4 && !spec_is_zero_bits(y) && !spec_is_zero_bits(z)),
    ensures
        ({
            let s = seq![0u8] + spec_le_bytes(x) + seq![0u8] + spec_le_bytes(y) + seq![opb]
                + seq![0u8] + spec_le_bytes(z) + seq![opb];
            let (s1, out1) = spec_run(s, fresh_vm(ans));
            &&& out1 == Step::Request(Request::Binary { op: opb, lhs: x, rhs: y })
            &&& ({
                let (s1p, e1) = spec_provide(s1, r1);
                &&& e1 is None
                &&& ({
                    let (s2, out2) = spec_run(s, s1p);
                    &&& out2 == Step::Request(Request::Binary { op: opb, lhs: r1, rhs: z })
                    &&& (forall|r2: u64| #![auto] spec_provide(s2, r2).1 is None
                        && spec_run(s, spec_provide(s2, r2).0).1 == Step::Done(r2))
                })
            })
        }),
{
    let s = seq![0u8] + spec_le_bytes(x) + seq![0u8] + spec_le_bytes(y) + seq![opb] + seq![0u8]
        + spec_le_bytes(z) + seq![opb];
    assert(s.len() == 29);
    assert(s[0] == 0);
    assert(s.subrange(1, 9) =~= spec_le_bytes(x));
    assert(s[9] == 0);
    assert(s.subrange(10, 18) =~= spec_le_bytes(y));
    assert(s[18] == opb);
    assert(s[19] == 0);
    assert(s.subrange(20, 28) =~= spec_le_bytes(z));
    assert(s[28] == opb);
    lemma_le_roundtrip(x);
    lemma_le_roundtrip(y);
    lemma_le_roundtrip(z);

    let st1 = VmState { ip: 9, stack: Seq::<u64>::empty().push(x), ans, pending: None };
    let st2 = VmState { ip: 18, stack: st1.stack.push(y), ans, pending: None };
    assert(spec_run(s, fresh_vm(ans)) == spec_run(s, st1));
    assert(spec_run(s, st1) == spec_run(s, st2));
    assert(st2.stack.last() == y && st2.stack.drop_last().last() == x);
    assert(st2.stack.drop_last().drop_last() =~= Seq::<u64>::empty());
    let req1 = Request::Binary { op: opb, lhs: x, rhs: y };
    let s1 = VmState { ip: 19, stack: Seq::<u64>::empty(), ans, pending: Some(req1) };
    assert(spec_run(s, st2) == (s1, Step::Request(req1)));

    let s1p = VmState { ip: 19, stack: Seq::<u64>::empty().push(r1), ans, pending: None };
    assert(spec_provide(s1, r1) == (s1p, None::<VmError>));

    let st3 = VmState { ip: 28, stack: s1p.stack.push(z), ans, pending: None };
    assert(spec_run(s, s1p) == spec_run(s, st3));
    assert(st3.stack.last() == z && st3.stack.drop_last().last() == r1);
    assert(st3.stack.drop_last().drop_last() =~= Seq::<u64>::empty());
    let req2 = Request::Binary { op: opb, lhs: r1, rhs: z };
    let s2 = VmState { ip: 29, stack: Seq::<u64>::empty(), ans, pending: Some(req2) };
    assert(spec_run(s, st3) == (s2, Step::Request(req2)));

    assert forall|r2: u64| #![auto] spec_provide(s2, r2).1 is None && spec_run(
        s,
        spec_provide(s2, r2).0,
    ).1 == Step::Done(r2) by {
        let s2p = VmState { ip: 29, stack: Seq::<u64>::empty().push(r2), ans, pending: None };
        assert(spec_provide(s2, r2) == (s2p, None::<VmError>));
        assert(spec_run(s, s2p).1 == Step::Done(r2));
    }
}

/// Precedence of the machine: on the program `a b c * +` the factor `b * c`
/// is asked for first, and the sum combines `a` with its result — the
/// product binds tighter than the sum, for all operands.
pub proof fn lemma_precedence_requests(x: u64, y: u64, z: u64, r1: u64, ans: Option<u64>)
    ensures
        ({
            let s = seq![0u8] + spec_le_bytes(x) + seq![0u8] + spec_le_bytes(y) + seq![0u8]
                + spec_le_bytes(z) + seq![3u8, 1u8];
            let (s1, out1) = spec_run(s, fresh_vm(ans));
            &&& out1 == Step::Request(Request::Binary { op: 3, lhs: y, rhs: z })
            &&& ({
                let (s1p, e1) = spec_provide(s1, r1);
                &&& e1 is None
                &&& ({
                    let (s2, out2) = spec_run(s, s1p);
                    &&& out2 == Step::Request(Request::Binary { op: 1, lhs: x, rhs: r1 })
                    &&& (forall|r2: u64| #![auto] spec_provide(s2, r2).1 is None
                        && spec_run(s, spec_provide(s2, r2).0).1 == Step::Done(r2))
                })
            })
        }),
{
    let s = seq![0u8] + spec_le_bytes(x) + seq![0u8] + spec_le_bytes(y) + seq![0u8]
        + spec_le_bytes(z) + seq![3u8, 1u8];
    assert(s.len() == 29);
    assert(s[0] == 0);
    assert(s.subrange(1, 9) =~= spec_le_bytes(x));
    assert(s[9] == 0);
    assert(s.subrange(10, 18) =~= spec_le_bytes(y));
    assert(s[18] == 0);
    assert(s.subrange(19, 27) =~= spec_le_bytes(z));
    assert(s[27] == 3);
    assert(s[28] == 1);
    lemma_le_roundtrip(x);
    lemma_le_roundtrip(y);
    lemma_le_roundtrip(z);

    let st1 = VmState { ip: 9, stack: Seq::<u64>::empty().push(x), ans, pending: None };
    let st2 = VmState { ip: 18, stack: st1.stack.push(y), ans, pending: None };
    let st3 = VmState { ip: 27, stack: st2.stack.push(z), ans, pending: None };
    assert(spec_run(s, fresh_vm(ans)) == spec_run(s, st1));
    assert(spec_run(s, st1) == spec_run(s, st2));
    assert(spec_run(s, st2) == spec_run(s, st3));
    assert(st3.stack.last() == z && st3.stack.drop_last().last() == y);
    assert(st3.stack.drop_last().drop_last() =~= Seq::<u64>::empty().push(x));
    let req1 = Request::Binary { op: 3, lhs: y, rhs: z };
    let s1 = VmState { ip: 28, stack: Seq::<u64>::empty().push(x), ans, pending: Some(req1) };
    assert(spec_run(s, st3) == (s1, Step::Request(req1)));

    let s1p = VmState { ip: 28, stack: s1.stack.push(r1), ans, pending: None };
    assert(spec_provide(s1, r1) == (s1p, None::<VmError>));
    assert(s1p.stack.last() == r1 && s1p.stack.drop_last().last() == x);
    assert(s1p.stack.drop_last().drop_last() =~= Seq::<u64>::empty());
    let req2 = Request::Binary { op: 1, lhs: x, rhs: r1 };
    let s2 = VmState { ip: 29, stack: Seq::<u64>::empty(), ans, pending: Some(req2) };
    assert(spec_run(s, s1p) == (s2, Step::Request(req2)));

    assert forall|r2: u64| #![auto] spec_provide(s2, r2).1 is None && spec_run(
        s,
        spec_provide(s2, r2).0,
    ).1 == Step::Done(r2) by {
        let s2p = VmState { ip: 29, stack: Seq::<u64>::empty().push(r2), ans, pending: None };
        assert(spec_provide(s2, r2) == (s2p, None::<VmError>));
        assert(spec_run(s, s2p).1 == Step::Done(r2));
    }
}


/// A code block of settled shape: from any depth at least `need` it runs
/// cleanly and moves the depth by `net`; from a shallower stack it is
/// refused. A complete expression compiles to shape `(0, 1)` — no demand,
/// one value; demands arise only from inputs that break off after an
/// operator.
pub open spec fn code_shape(e: Seq<u8>, need: int, net: int) -> bool {
    &&& 0 <= need
    &&& 0 <= need + net
    &&& forall|d: int|
        0 <= d ==> #[trigger] wf_code(e, d) == (if d >= need {
            Some(d + net)
        } else {
            None::<int>
        })
}

/// Running a clean block then another is running the concatenation.
pub proof fn lemma_wf_concat(a: Seq<u8>, b: Seq<u8>, d: int, m: int)
    requires
        wf_code(a, d) == Some(m),
    ensures
        wf_code(a + b, d) == wf_code(b, m),
    decreases a.len(),
{
    if a.len() == 0 {
        assert(a + b =~= b);
    } else {
        let op = a[0];
        assert((a + b)[0] == op);
        if op == 0 {
            assert((a + b).skip(9) =~= a.skip(9) + b);
            lemma_wf_concat(a.skip(9), b, d + 1, m);
        } else if 1 <= op && op <= 4 {
            assert((a + b).skip(1) =~= a.skip(1) + b);
            lemma_wf_concat(a.skip(1), b, d - 1, m);
        } else if op == 5 {
            assert((a + b).skip(1) =~= a.skip(1) + b);
            lemma_wf_concat(a.skip(1), b, d, m);
        } else if op == 6 {
            assert((a + b)[1] == a[1]);
            assert((a + b).skip(2) =~= a.skip(2) + b);
            lemma_wf_concat(a.skip(2), b, d - spec_func_of(a[1]).spec_arity() + 1, m);
        } else if op == 7 {
            assert((a + b).skip(1) =~= a.skip(1) + b);
            lemma_wf_concat(a.skip(1), b, d + 1, m);
        } else {
            assert((a + b).skip(2) =~= a.skip(2) + b);
            lemma_wf_concat(a.skip(2), b, d + 1, m);
        }
    }
}

/// A structurally complete block (clean at some depth) that is refused at
/// `d` for want of operands is refused with anything appended: a
/// continuation mends no depth shortage.
pub proof fn lemma_wf_none_concat(a: Seq<u8>, b: Seq<u8>, d: int, d0: int)
    requires
        wf_code(a, d0) is Some,
        wf_code(a, d) is None,
    ensures
        wf_code(a + b, d) is None,
    decreases a.len(),
{
    let op = a[0];
    assert((a + b)[0] == op);
    if op == 0 {
        assert((a + b).skip(9) =~= a.skip(9) + b);
        lemma_wf_none_concat(a.skip(9), b, d + 1, d0 + 1);
    } else if 1 <= op && op <= 4 {
        if d >= 2 {
            assert((a + b).skip(1) =~= a.skip(1) + b);
            lemma_wf_none_concat(a.skip(1), b, d - 1, d0 - 1);
        }
    } else if op == 5 {
        if d >= 1 {
            assert((a + b).skip(1) =~= a.skip(1) + b);
            lemma_wf_none_concat(a.skip(1), b, d, d0);
        }
    } else if op == 6 {
        assert((a + b)[1] == a[1]);
        let ar = spec_func_of(a[1]).spec_arity() as int;
        if d >= ar {
            assert((a + b).skip(2) =~= a.skip(2) + b);
            lemma_wf_none_concat(a.skip(2), b, d - ar + 1, d0 - ar + 1);
        }
    } else if op == 7 {
        assert((a + b).skip(1) =~= a.skip(1) + b);
        lemma_wf_none_concat(a.skip(1), b, d + 1, d0 + 1);
    } else {
        assert((a + b).skip(2) =~= a.skip(2) + b);
        lemma_wf_none_concat(a.skip(2), b, d + 1, d0 + 1);
    }
}

/// The empty block: no demand, no change.
proof fn lemma_shape_empty()
    ensures
        code_shape(Seq::<u8>::empty(), 0, 0),
{
    let e = Seq::<u8>::empty();
    assert forall|d: int| 0 <= d implies #[trigger] wf_code(e, d) == Some(d) by {
        assert(e.len() == 0);
    }
}

/// The literal and answer opcodes are blocks of one push each.
proof fn lemma_shape_literals(n: u8, bits: u64)
    ensures
        code_shape(seq![8u8, n], 0, 1),
        code_shape(seq![0u8] + spec_le_bytes(bits), 0, 1),
        code_shape(seq![7u8], 0, 1),
{
    let s8 = seq![8u8, n];
    assert(s8.len() == 2 && s8[0] == 8);
    assert forall|d: int| 0 <= d implies #[trigger] wf_code(s8, d) == Some(d + 1) by {
        assert(s8.skip(2) =~= Seq::<u8>::empty());
        assert(wf_code(s8.skip(2), d + 1) == Some(d + 1));
    }
    let w = seq![0u8] + spec_le_bytes(bits);
    assert(w.len() == 9);
    assert(w[0] == 0);
    assert forall|d: int| 0 <= d implies #[trigger] wf_code(w, d) == Some(d + 1) by {
        assert(w.skip(9) =~= Seq::<u8>::empty());
        assert(wf_code(w.skip(9), d + 1) == Some(d + 1));
    }
    let s7 = seq![7u8];
    assert(s7.len() == 1 && s7[0] == 7);
    assert forall|d: int| 0 <= d implies #[trigger] wf_code(s7, d) == Some(d + 1) by {
        assert(s7.skip(1) =~= Seq::<u8>::empty());
        assert(wf_code(s7.skip(1), d + 1) == Some(d + 1));
    }
}

/// Joining two shaped blocks: the second runs on whatever the first left,
/// so its demand is felt shifted by the first's yield.
proof fn lemma_shape_join(e1: Seq<u8>, n1: int, t1: int, e2: Seq<u8>, n2: int, t2: int)
    requires
        code_shape(e1, n1, t1),
        code_shape(e2, n2, t2),
    ensures
        code_shape(e1 + e2, if n2 - t1 > n1 { n2 - t1 } else { n1 }, t1 + t2),
{
    let nd: int = if n2 - t1 > n1 { n2 - t1 } else { n1 };
    assert forall|d: int| 0 <= d implies #[trigger] wf_code(e1 + e2, d) == (if d >= nd {
        Some(d + t1 + t2)
    } else {
        None::<int>
    }) by {
        if d >= n1 {
            lemma_wf_concat(e1, e2, d, d + t1);
        } else {
            lemma_wf_none_concat(e1, e2, d, n1);
        }
    }
}

/// The shapes of the one-instruction operator blocks.
proof fn lemma_shape_opcodes(opb: u8, f: FuncType)
    requires
        1 <= opb <= 4,
    ensures
        code_shape(seq![opb], 2, -1),
        code_shape(seq![5u8], 1, 0),
        code_shape(seq![6u8, f.spec_code()], f.spec_arity() as int, 1 - f.spec_arity()),
    decreases 0int,
{
    let so = seq![opb];
    assert(so.len() == 1 && so[0] == opb);
    assert forall|d: int| 0 <= d implies #[trigger] wf_code(so, d) == (if d >= 2 {
        Some(d - 1)
    } else {
        None::<int>
    }) by {
        assert(so.skip(1) =~= Seq::<u8>::empty());
        assert(wf_code(so.skip(1), d - 1) == Some(d - 1));
    }
    let s5 = seq![5u8];
    assert(s5.len() == 1 && s5[0] == 5);
    assert forall|d: int| 0 <= d implies #[trigger] wf_code(s5, d) == (if d >= 1 {
        Some(d)
    } else {
        None::<int>
    }) by {
        assert(s5.skip(1) =~= Seq::<u8>::empty());
        assert(wf_code(s5.skip(1), d) == Some(d));
    }
    let fc = seq![6u8, f.spec_code()];
    let a = f.spec_arity() as int;
    assert(fc.len() == 2 && fc[0] == 6 && fc[1] == f.spec_code());
    assert(spec_func_of(f.spec_code()) == f);
    assert forall|d: int| 0 <= d implies #[trigger] wf_code(fc, d) == (if d >= a {
        Some(d + 1 - a)
    } else {
        None::<int>
    }) by {
        assert(fc.skip(2) =~= Seq::<u8>::empty());
        assert(wf_code(fc.skip(2), d + 1 - a) == Some(d + 1 - a));
    }
}

/// Whether the token slots and cursor of a mirror state can arise in a
/// real parse: an empty current slot means the input is exhausted.
pub open spec fn at_end_when_empty(src: Seq<u8>, st: CState) -> bool {
    &&& 0 <= st.pos <= src.len()
    &&& (st.cur is None ==> spec_skip_ws(src, st.pos) == src.len())
}

/// Advancing preserves coherence.
proof fn lemma_advance_coherent(src: Seq<u8>, st: CState)
    requires
        at_end_when_empty(src, st),
    ensures
        spec_advance(src, st) matches Ok(st1) ==> at_end_when_empty(src, st1) && st1.prev
            == st.cur && (st.cur is None ==> st1.cur is None && st1.pos == src.len()),
{
    lemma_scan_bounds(src, st.pos);
    lemma_skip_ws_bounds(src, st.pos);
    if st.cur is None {
        // The cursor rests in trailing whitespace: the scan is an `Eof`.
        assert(spec_skip_ws(src, st.pos) == src.len());
    }
}

/// Consuming preserves coherence.
proof fn lemma_consume_coherent(src: Seq<u8>, st: CState, target: TokenV, err: CompErrV)
    requires
        at_end_when_empty(src, st),
    ensures
        spec_consume(src, st, target, err) matches Ok(st1) ==> at_end_when_empty(src, st1),
{
    lemma_advance_coherent(src, st);
}

/// Shape of a number emission: one push.
proof fn shape_emit_number(d: Seq<u8>, table: Seq<(Seq<u8>, u64)>)
    ensures
        spec_emit_number(d, table) matches Ok(e) ==> code_shape(e, 0, 1),
{
    match spec_classify(d) {
        NumClass::Malformed => {},
        NumClass::Small(n) => {
            lemma_shape_literals(n, 0);
        },
        NumClass::Big => {
            match spec_lookup(table, d) {
                Some(bits) => {
                    lemma_shape_literals(0, bits);
                },
                None => {},
            }
        },
    }
}

/// Shape of everything an expression emits: a block that, run on a stack
/// holding its `dd` missing operands, leaves exactly one value on top of
/// them. A parse of a complete expression has `dd == 0`; a positive `dd`
/// arises only when the input broke off after an operator, which also
/// exhausts the input.
proof fn shape_expression(
    src: Seq<u8>,
    table: Seq<(Seq<u8>, u64)>,
    st: CState,
    pri: Priority,
) -> (dd: int)
    requires
        at_end_when_empty(src, st),
    ensures
        spec_expression(src, table, st, pri) matches Ok(p) ==> {
            &&& at_end_when_empty(src, p.0)
            &&& ((p.1 == Seq::<u8>::empty() && p.0.cur is None) || (code_shape(p.1, dd, 1 - dd)
                && 0 <= dd && (dd > 0 ==> p.0.cur is None)))
        },
    decreases cm(src, st), 0int, 1int,
{
    match spec_advance(src, st) {
        Err(_) => 0,
        Ok(st1) => {
            lemma_advance_coherent(src, st);
            match st1.prev {
                None => {
                    // No token: nothing is emitted and the input is spent.
                    // The climb loop sees an empty slot and does nothing.
                    0
                },
                Some(TokenV::Minus) => {
                    if cm(src, st1) < cm(src, st) {
                        let du = shape_emit_unary(src, table, st1);
                        match spec_emit_unary(src, table, st1) {
                            Ok((st2, e1)) => {
                                finish_expression(src, table, st, st2, e1, du, pri)
                            },
                            Err(_) => 0,
                        }
                    } else {
                        0
                    }
                },
                Some(TokenV::Number(dg)) => {
                    shape_emit_number(dg, table);
                    match spec_emit_number(dg, table) {
                        Ok(e1) => finish_expression(src, table, st, st1, e1, 0, pri),
                        Err(_) => 0,
                    }
                },
                Some(TokenV::LeftParen) => {
                    if cm(src, st1) < cm(src, st) {
                        shape_parse_group(src, table, st1);
                        match spec_parse_group(src, table, st1) {
                            Ok((st2, e1)) => {
                                finish_expression(src, table, st, st2, e1, 0, pri)
                            },
                            Err(_) => 0,
                        }
                    } else {
                        0
                    }
                },
                Some(TokenV::Func(f)) => {
                    if cm(src, st1) < cm(src, st) {
                        shape_parse_fn(src, table, st1, f);
                        match spec_parse_fn(src, table, st1, f) {
                            Ok((st2, e1)) => {
                                finish_expression(src, table, st, st2, e1, 0, pri)
                            },
                            Err(_) => 0,
                        }
                    } else {
                        0
                    }
                },
                Some(TokenV::Ans) => {
                    lemma_shape_literals(0, 0);
                    finish_expression(src, table, st, st1, seq![7u8], 0, pri)
                },
                Some(_) => 0,
            }
        },
    }
}

/// The tail of `shape_expression`: the prefix emitted `e1` with shape
/// `(dp, 1 - dp)` (or is the lone `Ans`/number push), and the climb loop
/// follows from state `st2`.
proof fn finish_expression(
    src: Seq<u8>,
    table: Seq<(Seq<u8>, u64)>,
    st: CState,
    st2: CState,
    e1: Seq<u8>,
    dp: int,
    pri: Priority,
) -> (dd: int)
    requires
        at_end_when_empty(src, st2),
        code_shape(e1, dp, 1 - dp),
        0 <= dp,
        dp > 0 ==> st2.cur is None,
    ensures
        ({
            let follow: Result<(CState, Seq<u8>), CompErrV> = if cm(src, st2) < cm(src, st) {
                match spec_expr_loop(src, table, st2, pri) {
                    Err(e) => Err(e),
                    Ok((st3, e2)) => Ok((st3, e1 + e2)),
                }
            } else {
                Ok((st2, e1))
            };
            follow matches Ok(p) ==> {
                &&& at_end_when_empty(src, p.0)
                &&& ((p.1 == Seq::<u8>::empty() && p.0.cur is None) || (code_shape(
                    p.1,
                    dd,
                    1 - dd,
                ) && 0 <= dd && (dd > 0 ==> p.0.cur is None)))
            }
        }),
    decreases cm(src, st), 0int, 0int,
{
    if cm(src, st2) < cm(src, st) {
        let (la, lb) = shape_expr_loop(src, table, st2, pri);
        match spec_expr_loop(src, table, st2, pri) {
            Ok((st3, e2)) => {
                if dp > 0 {
                    // The prefix already drained the input: the loop is
                    // trivial.
                    assert(st2.cur is None);
                    assert(e2 == Seq::<u8>::empty());
                    assert(e1 + e2 =~= e1);
                    dp
                } else {
                    lemma_shape_join(e1, dp, 1 - dp, e2, la, -lb);
                    let nd: int = if la - (1 - dp) > dp { la - (1 - dp) } else { dp };
                    assert(code_shape(e1 + e2, nd, 1 - dp - lb - dp));
                    lb
                }
            },
            Err(_) => 0,
        }
    } else {
        dp
    }
}

/// Shape of what the climb loop emits: `lb` operator applications short of
/// operands it expects beneath it (`lb > 0` only off the input's end), and
/// a demand of at most one more than that.
proof fn shape_expr_loop(
    src: Seq<u8>,
    table: Seq<(Seq<u8>, u64)>,
    st: CState,
    pri: Priority,
) -> (r: (int, int))
    requires
        at_end_when_empty(src, st),
    ensures
        spec_expr_loop(src, table, st, pri) matches Ok(p) ==> {
            &&& at_end_when_empty(src, p.0)
            &&& code_shape(p.1, r.0, -r.1)
            &&& 0 <= r.1
            &&& (r.0 == r.1 + 1 || (r.0 == 0 && r.1 == 0))
            &&& (r.1 > 0 ==> p.0.cur is None)
        },
    decreases cm(src, st), 0int, 0int,
{
    match st.cur {
        None => {
            (0, 0)
        },
        Some(cur_tok) => {
            if spec_priority(cur_tok).spec_level() >= pri.spec_level() {
                match spec_advance(src, st) {
                    Err(_) => (0, 0),
                    Ok(st1) => {
                        lemma_advance_coherent(src, st);
                        match st1.prev {
                            None => (0, 0),
                            Some(t) => {
                                if t == TokenV::Div || t == TokenV::Plus || t == TokenV::Mult
                                    || t == TokenV::Minus {
                                    if cm(src, st1) < cm(src, st) {
                                        let dr = shape_parse_binary(src, table, st1, t);
                                        match spec_parse_binary(src, table, st1, t) {
                                            Ok((st2, e1)) => {
                                                if cm(src, st2) < cm(src, st) {
                                                    let (la, lb) = shape_expr_loop(
                                                        src,
                                                        table,
                                                        st2,
                                                        pri,
                                                    );
                                                    match spec_expr_loop(src, table, st2, pri) {
                                                        Ok((st3, e2)) => {
                                                            if dr > 0 {
                                                                assert(st2.cur is None);
                                                                assert(e2
                                                                    == Seq::<u8>::empty());
                                                                assert(e1 + e2 =~= e1);
                                                                (dr + 1, dr)
                                                            } else {
                                                                lemma_shape_join(
                                                                    e1,
                                                                    dr + 1,
                                                                    -dr,
                                                                    e2,
                                                                    la,
                                                                    -lb,
                                                                );
                                                                let nd: int = if la + dr > dr
                                                                    + 1 {
                                                                    la + dr
                                                                } else {
                                                                    dr + 1
                                                                };
                                                                assert(code_shape(
                                                                    e1 + e2,
                                                                    nd,
                                                                    -dr - lb,
                                                                ));
                                                                (nd, dr + lb)
                                                            }
                                                        },
                                                        Err(_) => (0, 0),
                                                    }
                                                } else {
                                                    (dr + 1, dr)
                                                }
                                            },
                                            Err(_) => (0, 0),
                                        }
                                    } else {
                                        (0, 0)
                                    }
                                } else {
                                    (0, 0)
                                }
                            },
                        }
                    },
                }
            } else {
                (0, 0)
            }
        },
    }
}

/// Shape of one infix production: the right operand's block, then the
/// operator, which also consumes one value from beneath.
proof fn shape_parse_binary(
    src: Seq<u8>,
    table: Seq<(Seq<u8>, u64)>,
    st: CState,
    t: TokenV,
) -> (dr: int)
    requires
        at_end_when_empty(src, st),
    ensures
        spec_parse_binary(src, table, st, t) matches Ok(p) ==> {
            &&& at_end_when_empty(src, p.0)
            &&& code_shape(p.1, dr + 1, -dr)
            &&& 0 <= dr
            &&& (dr > 0 ==> p.0.cur is None)
        },
    decreases cm(src, st), 1int, 0int,
{
    let de = shape_expression(src, table, st, spec_priority(t).spec_next());
    match spec_expression(src, table, st, spec_priority(t).spec_next()) {
        Err(_) => 0,
        Ok((st1, e1)) => {
            if t == TokenV::Minus || t == TokenV::Plus || t == TokenV::Div || t == TokenV::Mult {
                let opb: u8 = if t == TokenV::Minus {
                    2
                } else if t == TokenV::Plus {
                    1
                } else if t == TokenV::Div {
                    4
                } else {
                    3
                };
                lemma_shape_opcodes(opb, FuncType::Sqrt);
                if e1 == Seq::<u8>::empty() {
                    // A missing right operand: the operator alone, two
                    // operands short, at the input's end.
                    assert(wf_code(e1, 0) == Some(0int));
                    assert(st1.cur is None);
                    assert(e1 + seq![opb] =~= seq![opb]);
                    1
                } else {
                    lemma_shape_join(e1, de, 1 - de, seq![opb], 2, -1);
                    let nd: int = if 2 - (1 - de) > de { 2 - (1 - de) } else { de };
                    assert(nd == de + 1);
                    de
                }
            } else {
                0
            }
        },
    }
}

/// Shape of a group: exactly its inner expression, which the closing
/// parenthesis proves complete.
proof fn shape_parse_group(src: Seq<u8>, table: Seq<(Seq<u8>, u64)>, st: CState)
    requires
        at_end_when_empty(src, st),
    ensures
        spec_parse_group(src, table, st) matches Ok(p) ==> at_end_when_empty(src, p.0)
            && code_shape(p.1, 0, 1),
    decreases cm(src, st), 1int, 0int,
{
    let de = shape_expression(src, table, st, Priority::Term);
    match spec_expression(src, table, st, Priority::Term) {
        Err(_) => {},
        Ok((st1, e1)) => {
            lemma_consume_coherent(src, st1, TokenV::RightParen, CompErrV::UnterminedGroup);
            match spec_consume(src, st1, TokenV::RightParen, CompErrV::UnterminedGroup) {
                Err(_) => {},
                Ok(_) => {
                    // The parenthesis was there to consume, so the inner
                    // expression neither was empty nor broke off.
                    assert(st1.cur is Some);
                },
            }
        },
    }
}

/// Shape of `n + 1` comma-separated operands: `n + 1` pushes when the
/// caller's closing parenthesis is still pending; off the input's end the
/// last operand may be short.
proof fn shape_fn_args(src: Seq<u8>, table: Seq<(Seq<u8>, u64)>, st: CState, n: nat) -> (r: (
    int,
    int,
))
    requires
        at_end_when_empty(src, st),
    ensures
        spec_fn_args(src, table, st, n) matches Ok(p) ==> {
            &&& at_end_when_empty(src, p.0)
            &&& code_shape(p.1, r.0, r.1)
            &&& (p.0.cur is Some ==> r.0 == 0 && r.1 == n + 1)
        },
    decreases cm(src, st), 1int, n,
{
    if n == 0 {
        let de = shape_expression(src, table, st, Priority::Term);
        match spec_expression(src, table, st, Priority::Term) {
            Err(_) => (0, 0),
            Ok((st1, e1)) => {
                if e1 == Seq::<u8>::empty() {
                    lemma_shape_empty();
                    assert(wf_code(e1, 0) == Some(0int));
                    assert(st1.cur is None);
                    (0, 0)
                } else {
                    (de, 1 - de)
                }
            },
        }
    } else {
        let de = shape_expression(src, table, st, Priority::Term);
        match spec_expression(src, table, st, Priority::Term) {
            Err(_) => (0, 0),
            Ok((st1, e1)) => {
                lemma_consume_coherent(
                    src,
                    st1,
                    TokenV::Comma,
                    CompErrV::MissingCommaInFunctionCall,
                );
                match spec_consume(src, st1, TokenV::Comma, CompErrV::MissingCommaInFunctionCall) {
                    Err(_) => (0, 0),
                    Ok(st2) => {
                        // The comma was there: the operand was complete.
                        assert(st1.cur is Some);
                        if cm(src, st2) <= cm(src, st) {
                            let (n2, t2) = shape_fn_args(src, table, st2, (n - 1) as nat);
                            match spec_fn_args(src, table, st2, (n - 1) as nat) {
                                Err(_) => (0, 0),
                                Ok((st3, e2)) => {
                                    lemma_shape_join(e1, 0, 1, e2, n2, t2);
                                    let nd: int = if n2 - 1 > 0 { n2 - 1 } else { 0 };
                                    assert(code_shape(e1 + e2, nd, 1 + t2));
                                    (nd, 1 + t2)
                                },
                            }
                        } else {
                            (0, 0)
                        }
                    },
                }
            },
        }
    }
}

/// Shape of a function call: its operands and its opcode make one push.
proof fn shape_parse_fn(src: Seq<u8>, table: Seq<(Seq<u8>, u64)>, st: CState, f: FuncType)
    requires
        at_end_when_empty(src, st),
    ensures
        spec_parse_fn(src, table, st, f) matches Ok(p) ==> at_end_when_empty(src, p.0)
            && code_shape(p.1, 0, 1),
    decreases cm(src, st), 1int, 0int,
{
    lemma_consume_coherent(src, st, TokenV::LeftParen, CompErrV::MissingFunctionParen);
    match spec_consume(src, st, TokenV::LeftParen, CompErrV::MissingFunctionParen) {
        Err(_) => {},
        Ok(st1) => {
            if cm(src, st1) < cm(src, st) {
                let (na, ta) = shape_fn_args(src, table, st1, (f.spec_arity() - 1) as nat);
                match spec_fn_args(src, table, st1, (f.spec_arity() - 1) as nat) {
                    Err(_) => {},
                    Ok((st2, e1)) => {
                        lemma_consume_coherent(
                            src,
                            st2,
                            TokenV::RightParen,
                            CompErrV::MissingFunctionParen,
                        );
                        match spec_consume(
                            src,
                            st2,
                            TokenV::RightParen,
                            CompErrV::MissingFunctionParen,
                        ) {
                            Err(_) => {},
                            Ok(_) => {
                                assert(st2.cur is Some);
                                assert(na == 0 && ta == f.spec_arity() as int);
                                lemma_shape_opcodes(1, f);
                                lemma_shape_join(
                                    e1,
                                    0,
                                    f.spec_arity() as int,
                                    seq![6u8, f.spec_code()],
                                    f.spec_arity() as int,
                                    1 - f.spec_arity(),
                                );
                            },
                        }
                    },
                }
            }
        },
    }
}

/// Shape of the unary minus: its operand's block and the negate opcode,
/// one push in all; a missing operand leaves the lone negate, one short.
proof fn shape_emit_unary(src: Seq<u8>, table: Seq<(Seq<u8>, u64)>, st: CState) -> (dd: int)
    requires
        at_end_when_empty(src, st),
    ensures
        spec_emit_unary(src, table, st) matches Ok(p) ==> {
            &&& at_end_when_empty(src, p.0)
            &&& code_shape(p.1, dd, 1 - dd)
            &&& 0 <= dd
            &&& (dd > 0 ==> p.0.cur is None)
        },
    decreases cm(src, st), 1int, 0int,
{
    let de = shape_expression(src, table, st, Priority::Unary);
    match spec_expression(src, table, st, Priority::Unary) {
        Err(_) => 0,
        Ok((st1, e1)) => {
            lemma_shape_opcodes(1, FuncType::Sqrt);
            if e1 == Seq::<u8>::empty() {
                assert(wf_code(e1, 0) == Some(0int));
                assert(st1.cur is None);
                assert(e1 + seq![5u8] =~= seq![5u8]);
                1
            } else {
                lemma_shape_join(e1, de, 1 - de, seq![5u8], 1, 0);
                let nd: int = if 1 - (1 - de) > de { 1 - (1 - de) } else { de };
                assert(nd == de);
                de
            }
        },
    }
}

/// What a successful compilation can emit: nothing (the empty input), a
/// block that leaves exactly one value on the stack, or — only when the
/// input breaks off after an operator — a block the machine refuses
/// outright. Never a block that leaves more or less than one value. With
/// [`lemma_clean_stream_never_stuck`], a compiled stream the machine
/// accepts runs to a single result or to one of the defined failures.
pub proof fn lemma_compile_emits_one_value(src: Seq<u8>, table: Seq<(Seq<u8>, u64)>, pos: int)
    requires
        0 <= pos <= src.len(),
    ensures
        spec_compile(src, table, pos) matches Ok(p) ==> (p.1 == Seq::<u8>::empty() || wf_code(
            p.1,
            0,
        ) == Some(1int) || wf_code(p.1, 0) is None),
{
    let st0 = CState { pos, prev: None, cur: None };
    match spec_advance(src, st0) {
        Err(_) => {},
        Ok(st1) => {
            assert(at_end_when_empty(src, st1)) by {
                lemma_scan_bounds(src, pos);
            }
            let dd = shape_expression(src, table, st1, Priority::Term);
            match spec_expression(src, table, st1, Priority::Term) {
                Err(_) => {},
                Ok((st2, e)) => {},
            }
        },
    }
}


/// Scanning at a digit whose successor (if any) ends a literal yields that
/// one digit as a number token.
proof fn lemma_scan_one_digit(src: Seq<u8>, i: int)
    requires
        0 <= i < src.len(),
        is_digit_byte(src[i]),
        i + 1 < src.len() ==> {
            let c = src[i + 1];
            !is_digit_byte(c) && c != 46 && c != 45 && c != 101
        },
    ensures
        spec_scan(src, i) == (Ok::<TokenV, LexError>(TokenV::Number(src.subrange(i, i + 1))), i
            + 1),
{
    assert(spec_skip_ws(src, i) == i);
    assert(spec_num_loop(src, i, i + 1, false, false, Some(src[i])) == (Ok::<
        TokenV,
        LexError,
    >(TokenV::Number(src.subrange(i, i + 1))), i + 1));
}

/// A single digit classifies as the small integer it spells.
proof fn lemma_classify_one_digit(c: u8)
    requires
        is_digit_byte(c),
    ensures
        spec_classify(seq![c]) == NumClass::Small((c - 48) as u8),
{
    let s = seq![c];
    assert(s.len() == 1 && s[0] == c);
    assert(first_idx(s, 101) == 1) by {
        assert(s.skip(1).len() == 0);
        assert(first_idx(s.skip(1), 101) == 0);
    }
    assert(mant_of(s) =~= s);
    assert(!has_exp(s));
    assert(first_idx(s, 46) == 1) by {
        assert(s.skip(1).len() == 0);
        assert(first_idx(s.skip(1), 46) == 0);
    }
    assert(int_part(s) =~= s);
    assert(frac_part(s) =~= Seq::<u8>::empty());
    assert(wf_number(s));
    assert(digits_val(s) == c - 48) by {
        assert(s.drop_last().len() == 0);
        assert(digits_val(s.drop_last()) == 0);
        assert(s.last() == c);
    }
    assert(mant_val(s) == c - 48) by {
        assert(int_part(mant_of(s)) + frac_part(mant_of(s)) =~= s);
    }
    assert(exp_val(s) == 0);
    assert(scale_of(s) == 0);
    assert(crate::decimal::pow10(0) == 1);
    assert(spec_small_value(s) == Some((c - 48) as int));
}

/// The bytes a one-digit literal compiles to: the compact form of its
/// value, whatever the number table holds.
proof fn lemma_emit_one_digit(c: u8, table: Seq<(Seq<u8>, u64)>)
    requires
        is_digit_byte(c),
    ensures
        spec_emit_number(seq![c], table) == Ok::<Seq<u8>, CompErrV>(seq![8u8, (c - 48) as u8]),
{
    lemma_classify_one_digit(c);
}


/// What the compiler emits for `a+b*c` (one-digit literals): the product's
/// operands and opcode first, then the sum's — the factor binds tighter
/// than the term, for every digit and whatever the number table holds.
pub proof fn lemma_precedence_emission(da: u8, db: u8, dc: u8, table: Seq<(Seq<u8>, u64)>)
    requires
        is_digit_byte(da),
        is_digit_byte(db),
        is_digit_byte(dc),
    ensures
        ({
            let src = seq![da, 43u8, db, 42u8, dc];
            spec_compile(src, table, 0) matches Ok(p) && p.1 == seq![
                8u8,
                (da - 48) as u8,
                8u8,
                (db - 48) as u8,
                8u8,
                (dc - 48) as u8,
                3u8,
                1u8,
            ]
        }),
{
    let src = seq![da, 43u8, db, 42u8, dc];
    assert(src.len() == 5 && src[0] == da && src[1] == 43 && src[2] == db && src[3] == 42
        && src[4] == dc);
    let va = (da - 48) as u8;
    let vb = (db - 48) as u8;
    let vc = (dc - 48) as u8;

    lemma_scan_one_digit(src, 0);
    assert(src.subrange(0, 1) =~= seq![da]);
    let tok_a = TokenV::Number(seq![da]);
    assert(spec_scan(src, 0) == (Ok::<TokenV, LexError>(tok_a), 1int));
    assert(spec_skip_ws(src, 1) == 1);
    assert(spec_scan(src, 1) == (Ok::<TokenV, LexError>(TokenV::Plus), 2int));
    lemma_scan_one_digit(src, 2);
    assert(src.subrange(2, 3) =~= seq![db]);
    let tok_b = TokenV::Number(seq![db]);
    assert(spec_scan(src, 2) == (Ok::<TokenV, LexError>(tok_b), 3int));
    assert(spec_skip_ws(src, 3) == 3);
    assert(spec_scan(src, 3) == (Ok::<TokenV, LexError>(TokenV::Mult), 4int));
    lemma_scan_one_digit(src, 4);
    assert(src.subrange(4, 5) =~= seq![dc]);
    let tok_c = TokenV::Number(seq![dc]);
    assert(spec_scan(src, 4) == (Ok::<TokenV, LexError>(tok_c), 5int));
    assert(spec_skip_ws(src, 5) == 5);
    assert(spec_scan(src, 5) == (Err::<TokenV, LexError>(LexError::Eof), 5int));

    lemma_emit_one_digit(da, table);
    lemma_emit_one_digit(db, table);
    lemma_emit_one_digit(dc, table);

    let st0 = CState { pos: 0, prev: None, cur: None };
    let st1 = CState { pos: 1, prev: None, cur: Some(tok_a) };
    let st2 = CState { pos: 2, prev: Some(tok_a), cur: Some(TokenV::Plus) };
    let st3 = CState { pos: 3, prev: Some(TokenV::Plus), cur: Some(tok_b) };
    let st4 = CState { pos: 4, prev: Some(tok_b), cur: Some(TokenV::Mult) };
    let st5 = CState { pos: 5, prev: Some(TokenV::Mult), cur: Some(tok_c) };
    let st6 = CState { pos: 5, prev: Some(tok_c), cur: None };

    assert(spec_advance(src, st0) == Ok::<CState, CompErrV>(st1));
    assert(spec_advance(src, st1) == Ok::<CState, CompErrV>(st2));
    assert(spec_advance(src, st2) == Ok::<CState, CompErrV>(st3));
    assert(spec_advance(src, st3) == Ok::<CState, CompErrV>(st4));
    assert(spec_advance(src, st4) == Ok::<CState, CompErrV>(st5));
    assert(spec_advance(src, st5) == Ok::<CState, CompErrV>(st6));

    // The literal c, parsed at Unary priority for the product's right side.
    assert(spec_expr_loop(src, table, st6, Priority::Unary) == Ok::<
        (CState, Seq<u8>),
        CompErrV,
    >((st6, Seq::<u8>::empty())));
    assert(spec_expression(src, table, st5, Priority::Unary) == Ok::<
        (CState, Seq<u8>),
        CompErrV,
    >((st6, seq![8u8, vc]))) by {
        assert(cm(src, st6) < cm(src, st5));
        assert(seq![8u8, vc] + Seq::<u8>::empty() =~= seq![8u8, vc]);
    }

    // b * c.
    assert(spec_parse_binary(src, table, st5, TokenV::Mult) == Ok::<
        (CState, Seq<u8>),
        CompErrV,
    >((st6, seq![8u8, vc, 3u8]))) by {
        assert(spec_priority(TokenV::Mult).spec_next() == Priority::Unary);
        assert(seq![8u8, vc] + seq![3u8] =~= seq![8u8, vc, 3u8]);
    }
    assert(spec_expr_loop(src, table, st6, Priority::Factor) == Ok::<
        (CState, Seq<u8>),
        CompErrV,
    >((st6, Seq::<u8>::empty())));
    assert(spec_expr_loop(src, table, st4, Priority::Factor) == Ok::<
        (CState, Seq<u8>),
        CompErrV,
    >((st6, seq![8u8, vc, 3u8]))) by {
        assert(cm(src, st5) < cm(src, st4));
        assert(cm(src, st6) < cm(src, st4));
        assert(seq![8u8, vc, 3u8] + Seq::<u8>::empty() =~= seq![8u8, vc, 3u8]);
    }
    assert(spec_expression(src, table, st3, Priority::Factor) == Ok::<
        (CState, Seq<u8>),
        CompErrV,
    >((st6, seq![8u8, vb, 8u8, vc, 3u8]))) by {
        assert(cm(src, st4) < cm(src, st3));
        assert(seq![8u8, vb] + seq![8u8, vc, 3u8] =~= seq![8u8, vb, 8u8, vc, 3u8]);
    }

    // a + (b * c).
    assert(spec_parse_binary(src, table, st3, TokenV::Plus) == Ok::<
        (CState, Seq<u8>),
        CompErrV,
    >((st6, seq![8u8, vb, 8u8, vc, 3u8, 1u8]))) by {
        assert(spec_priority(TokenV::Plus).spec_next() == Priority::Factor);
        assert(seq![8u8, vb, 8u8, vc, 3u8] + seq![1u8] =~= seq![8u8, vb, 8u8, vc, 3u8, 1u8]);
    }
    assert(spec_expr_loop(src, table, st6, Priority::Term) == Ok::<
        (CState, Seq<u8>),
        CompErrV,
    >((st6, Seq::<u8>::empty())));
    assert(spec_expr_loop(src, table, st2, Priority::Term) == Ok::<
        (CState, Seq<u8>),
        CompErrV,
    >((st6, seq![8u8, vb, 8u8, vc, 3u8, 1u8]))) by {
        assert(cm(src, st3) < cm(src, st2));
        assert(cm(src, st6) < cm(src, st2));
        assert(seq![8u8, vb, 8u8, vc, 3u8, 1u8] + Seq::<u8>::empty() =~= seq![
            8u8,
            vb,
            8u8,
            vc,
            3u8,
            1u8,
        ]);
    }
    assert(spec_expression(src, table, st1, Priority::Term) == Ok::<
        (CState, Seq<u8>),
        CompErrV,
    >((st6, seq![8u8, va, 8u8, vb, 8u8, vc, 3u8, 1u8]))) by {
        assert(cm(src, st2) < cm(src, st1));
        assert(seq![8u8, va] + seq![8u8, vb, 8u8, vc, 3u8, 1u8] =~= seq![
            8u8,
            va,
            8u8,
            vb,
            8u8,
            vc,
            3u8,
            1u8,
        ]);
    }
    assert(spec_compile(src, table, 0) == Ok::<(CState, Seq<u8>), CompErrV>((st6, seq![
        8u8,
        va,
        8u8,
        vb,
        8u8,
        vc,
        3u8,
        1u8,
    ])));
}


/// What the compiler emits for `a - b - c` and `a / b / c` (one-digit
/// literals): the first difference or quotient's operands and opcode, then
/// the second — these operators associate to the left, for every digit and
/// whatever the number table holds. With [`lemma_left_assoc_requests`] the
/// machine then computes `(a op b) op c`.
#[verifier::rlimit(60)]
#[verifier::spinoff_prover]
pub proof fn lemma_left_assoc_emission(
    da: u8,
    db: u8,
    dc: u8,
    ob: u8,
    table: Seq<(Seq<u8>, u64)>,
)
    requires
        is_digit_byte(da),
        is_digit_byte(db),
        is_digit_byte(dc),
        ob == 45 || ob == 47,
    ensures
        ({
            let src = seq![da, 32u8, ob, 32u8, db, 32u8, ob, 32u8, dc];
            let oc: u8 = if ob == 45 { 2u8 } else { 4u8 };
            spec_compile(src, table, 0) matches Ok(p) && p.1 == seq![
                8u8,
                (da - 48) as u8,
                8u8,
                (db - 48) as u8,
                oc,
                8u8,
                (dc - 48) as u8,
                oc,
            ]
        }),
{
    let src = seq![da, 32u8, ob, 32u8, db, 32u8, ob, 32u8, dc];
    assert(src.len() == 9 && src[0] == da && src[1] == 32 && src[2] == ob && src[3] == 32
        && src[4] == db && src[5] == 32 && src[6] == ob && src[7] == 32 && src[8] == dc);
    let va = (da - 48) as u8;
    let vb = (db - 48) as u8;
    let vc = (dc - 48) as u8;
    let tok_op = if ob == 45 { TokenV::Minus } else { TokenV::Div };
    let oc: u8 = if ob == 45 { 2u8 } else { 4u8 };
    // The operator's right operand parses one rung above the operator:
    // Factor for the difference, Unary for the quotient.
    let pri_in = spec_priority(tok_op).spec_next();
    assert(spec_priority(tok_op).spec_level() >= Priority::Term.spec_level());
    assert(spec_priority(tok_op).spec_level() < pri_in.spec_level());

    lemma_scan_one_digit(src, 0);
    assert(src.subrange(0, 1) =~= seq![da]);
    let tok_a = TokenV::Number(seq![da]);
    assert(spec_scan(src, 0) == (Ok::<TokenV, LexError>(tok_a), 1int));

    assert(spec_skip_ws(src, 2) == 2);
    assert(spec_skip_ws(src, 1) == 2);
    assert(spec_scan(src, 1) == (Ok::<TokenV, LexError>(tok_op), 3int));

    assert(spec_skip_ws(src, 4) == 4);
    assert(spec_skip_ws(src, 3) == 4);
    lemma_scan_one_digit(src, 4);
    assert(src.subrange(4, 5) =~= seq![db]);
    let tok_b = TokenV::Number(seq![db]);
    assert(spec_scan(src, 4) == (Ok::<TokenV, LexError>(tok_b), 5int));
    assert(spec_scan(src, 3) == (Ok::<TokenV, LexError>(tok_b), 5int));

    assert(spec_skip_ws(src, 6) == 6);
    assert(spec_skip_ws(src, 5) == 6);
    assert(spec_scan(src, 5) == (Ok::<TokenV, LexError>(tok_op), 7int));

    assert(spec_skip_ws(src, 8) == 8);
    assert(spec_skip_ws(src, 7) == 8);
    lemma_scan_one_digit(src, 8);
    assert(src.subrange(8, 9) =~= seq![dc]);
    let tok_c = TokenV::Number(seq![dc]);
    assert(spec_scan(src, 8) == (Ok::<TokenV, LexError>(tok_c), 9int));
    assert(spec_scan(src, 7) == (Ok::<TokenV, LexError>(tok_c), 9int));

    assert(spec_skip_ws(src, 9) == 9);
    assert(spec_scan(src, 9) == (Err::<TokenV, LexError>(LexError::Eof), 9int));

    lemma_emit_one_digit(da, table);
    lemma_emit_one_digit(db, table);
    lemma_emit_one_digit(dc, table);

    let st0 = CState { pos: 0, prev: None, cur: None };
    let st1 = CState { pos: 1, prev: None, cur: Some(tok_a) };
    let st2 = CState { pos: 3, prev: Some(tok_a), cur: Some(tok_op) };
    let st3 = CState { pos: 5, prev: Some(tok_op), cur: Some(tok_b) };
    let st4 = CState { pos: 7, prev: Some(tok_b), cur: Some(tok_op) };
    let st5 = CState { pos: 9, prev: Some(tok_op), cur: Some(tok_c) };
    let st6 = CState { pos: 9, prev: Some(tok_c), cur: None };

    assert(spec_advance(src, st0) == Ok::<CState, CompErrV>(st1));
    assert(spec_advance(src, st1) == Ok::<CState, CompErrV>(st2));
    assert(spec_advance(src, st2) == Ok::<CState, CompErrV>(st3));
    assert(spec_advance(src, st3) == Ok::<CState, CompErrV>(st4));
    assert(spec_advance(src, st4) == Ok::<CState, CompErrV>(st5));
    assert(spec_advance(src, st5) == Ok::<CState, CompErrV>(st6));

    // The literal b alone: the pending operator, one rung higher, stops
    // the climb, so the first application closes before the second begins.
    assert(spec_expr_loop(src, table, st4, pri_in) == Ok::<
        (CState, Seq<u8>),
        CompErrV,
    >((st4, Seq::<u8>::empty())));
    assert(spec_expression(src, table, st3, pri_in) == Ok::<
        (CState, Seq<u8>),
        CompErrV,
    >((st4, seq![8u8, vb]))) by {
        assert(cm(src, st4) < cm(src, st3));
        assert(seq![8u8, vb] + Seq::<u8>::empty() =~= seq![8u8, vb]);
    }
    assert(spec_parse_binary(src, table, st3, tok_op) == Ok::<(CState, Seq<u8>), CompErrV>((
        st4,
        seq![8u8, vb, oc],
    ))) by {
        assert(seq![8u8, vb] + seq![oc] =~= seq![8u8, vb, oc]);
    }

    // The literal c closes the second application at the input's end.
    assert(spec_expr_loop(src, table, st6, pri_in) == Ok::<
        (CState, Seq<u8>),
        CompErrV,
    >((st6, Seq::<u8>::empty())));
    assert(spec_expression(src, table, st5, pri_in) == Ok::<
        (CState, Seq<u8>),
        CompErrV,
    >((st6, seq![8u8, vc]))) by {
        assert(cm(src, st6) < cm(src, st5));
        assert(seq![8u8, vc] + Seq::<u8>::empty() =~= seq![8u8, vc]);
    }
    assert(spec_parse_binary(src, table, st5, tok_op) == Ok::<(CState, Seq<u8>), CompErrV>((
        st6,
        seq![8u8, vc, oc],
    ))) by {
        assert(seq![8u8, vc] + seq![oc] =~= seq![8u8, vc, oc]);
    }

    // The climb at Term folds both applications, left to right.
    assert(spec_expr_loop(src, table, st6, Priority::Term) == Ok::<
        (CState, Seq<u8>),
        CompErrV,
    >((st6, Seq::<u8>::empty())));
    assert(spec_expr_loop(src, table, st4, Priority::Term) == Ok::<
        (CState, Seq<u8>),
        CompErrV,
    >((st6, seq![8u8, vc, oc]))) by {
        assert(cm(src, st5) < cm(src, st4));
        assert(cm(src, st6) < cm(src, st4));
        assert(seq![8u8, vc, oc] + Seq::<u8>::empty() =~= seq![8u8, vc, oc]);
    }
    assert(spec_expr_loop(src, table, st2, Priority::Term) == Ok::<
        (CState, Seq<u8>),
        CompErrV,
    >((st6, seq![8u8, vb, oc, 8u8, vc, oc]))) by {
        assert(cm(src, st3) < cm(src, st2));
        assert(cm(src, st4) < cm(src, st2));
        assert(seq![8u8, vb, oc] + seq![8u8, vc, oc] =~= seq![8u8, vb, oc, 8u8, vc, oc]);
    }
    assert(spec_expression(src, table, st1, Priority::Term) == Ok::<
        (CState, Seq<u8>),
        CompErrV,
    >((st6, seq![8u8, va, 8u8, vb, oc, 8u8, vc, oc]))) by {
        assert(cm(src, st2) < cm(src, st1));
        assert(seq![8u8, va] + seq![8u8, vb, oc, 8u8, vc, oc] =~= seq![
            8u8,
            va,
            8u8,
            vb,
            oc,
            8u8,
            vc,
            oc,
        ]);
    }
    assert(spec_compile(src, table, 0) == Ok::<(CState, Seq<u8>), CompErrV>((st6, seq![
        8u8,
        va,
        8u8,
        vb,
        oc,
        8u8,
        vc,
        oc,
    ])));
}

/// What the compiler emits for `-a*b` (one-digit literals): the negate
/// lands before the product's opcode, on `a` alone — unary minus binds
/// tighter than multiplication, so the stream is that of `(-a)*b`.
pub proof fn lemma_unary_binding_emission(da: u8, db: u8, table: Seq<(Seq<u8>, u64)>)
    requires
        is_digit_byte(da),
        is_digit_byte(db),
    ensures
        ({
            let src = seq![45u8, da, 42u8, db];
            spec_compile(src, table, 0) matches Ok(p) && p.1 == seq![
                8u8,
                (da - 48) as u8,
                5u8,
                8u8,
                (db - 48) as u8,
                3u8,
            ]
        }),
{
    let src = seq![45u8, da, 42u8, db];
    assert(src.len() == 4 && src[0] == 45 && src[1] == da && src[2] == 42 && src[3] == db);
    let va = (da - 48) as u8;
    let vb = (db - 48) as u8;

    assert(spec_skip_ws(src, 0) == 0);
    assert(spec_scan(src, 0) == (Ok::<TokenV, LexError>(TokenV::Minus), 1int));
    lemma_scan_one_digit(src, 1);
    assert(src.subrange(1, 2) =~= seq![da]);
    let tok_a = TokenV::Number(seq![da]);
    assert(spec_scan(src, 1) == (Ok::<TokenV, LexError>(tok_a), 2int));
    assert(spec_skip_ws(src, 2) == 2);
    assert(spec_scan(src, 2) == (Ok::<TokenV, LexError>(TokenV::Mult), 3int));
    lemma_scan_one_digit(src, 3);
    assert(src.subrange(3, 4) =~= seq![db]);
    let tok_b = TokenV::Number(seq![db]);
    assert(spec_scan(src, 3) == (Ok::<TokenV, LexError>(tok_b), 4int));
    assert(spec_skip_ws(src, 4) == 4);
    assert(spec_scan(src, 4) == (Err::<TokenV, LexError>(LexError::Eof), 4int));

    lemma_emit_one_digit(da, table);
    lemma_emit_one_digit(db, table);

    let st0 = CState { pos: 0, prev: None, cur: None };
    let st1 = CState { pos: 1, prev: None, cur: Some(TokenV::Minus) };
    let st2 = CState { pos: 2, prev: Some(TokenV::Minus), cur: Some(tok_a) };
    let st3 = CState { pos: 3, prev: Some(tok_a), cur: Some(TokenV::Mult) };
    let st4 = CState { pos: 4, prev: Some(TokenV::Mult), cur: Some(tok_b) };
    let st5 = CState { pos: 4, prev: Some(tok_b), cur: None };

    assert(spec_advance(src, st0) == Ok::<CState, CompErrV>(st1));
    assert(spec_advance(src, st1) == Ok::<CState, CompErrV>(st2));
    assert(spec_advance(src, st2) == Ok::<CState, CompErrV>(st3));
    assert(spec_advance(src, st3) == Ok::<CState, CompErrV>(st4));
    assert(spec_advance(src, st4) == Ok::<CState, CompErrV>(st5));

    // The negated operand: only the literal a, since the pending `*` sits
    // below the Unary priority.
    assert(spec_expr_loop(src, table, st3, Priority::Unary) == Ok::<
        (CState, Seq<u8>),
        CompErrV,
    >((st3, Seq::<u8>::empty())));
    assert(spec_expression(src, table, st2, Priority::Unary) == Ok::<
        (CState, Seq<u8>),
        CompErrV,
    >((st3, seq![8u8, va]))) by {
        assert(cm(src, st3) < cm(src, st2));
        assert(seq![8u8, va] + Seq::<u8>::empty() =~= seq![8u8, va]);
    }
    assert(spec_emit_unary(src, table, st2) == Ok::<(CState, Seq<u8>), CompErrV>((st3, seq![
        8u8,
        va,
        5u8,
    ]))) by {
        assert(seq![8u8, va] + seq![5u8] =~= seq![8u8, va, 5u8]);
    }

    // The product's right operand and opcode.
    assert(spec_expr_loop(src, table, st5, Priority::Unary) == Ok::<
        (CState, Seq<u8>),
        CompErrV,
    >((st5, Seq::<u8>::empty())));
    assert(spec_expression(src, table, st4, Priority::Unary) == Ok::<
        (CState, Seq<u8>),
        CompErrV,
    >((st5, seq![8u8, vb]))) by {
        assert(cm(src, st5) < cm(src, st4));
        assert(seq![8u8, vb] + Seq::<u8>::empty() =~= seq![8u8, vb]);
    }
    assert(spec_parse_binary(src, table, st4, TokenV::Mult) == Ok::<
        (CState, Seq<u8>),
        CompErrV,
    >((st5, seq![8u8, vb, 3u8]))) by {
        assert(spec_priority(TokenV::Mult).spec_next() == Priority::Unary);
        assert(seq![8u8, vb] + seq![3u8] =~= seq![8u8, vb, 3u8]);
    }
    assert(spec_expr_loop(src, table, st5, Priority::Term) == Ok::<
        (CState, Seq<u8>),
        CompErrV,
    >((st5, Seq::<u8>::empty())));
    assert(spec_expr_loop(src, table, st3, Priority::Term) == Ok::<
        (CState, Seq<u8>),
        CompErrV,
    >((st5, seq![8u8, vb, 3u8]))) by {
        assert(cm(src, st4) < cm(src, st3));
        assert(cm(src, st5) < cm(src, st3));
        assert(seq![8u8, vb, 3u8] + Seq::<u8>::empty() =~= seq![8u8, vb, 3u8]);
    }
    assert(spec_expression(src, table, st1, Priority::Term) == Ok::<
        (CState, Seq<u8>),
        CompErrV,
    >((st5, seq![8u8, va, 5u8, 8u8, vb, 3u8]))) by {
        assert(cm(src, st2) < cm(src, st1));
        assert(cm(src, st3) < cm(src, st1));
        assert(seq![8u8, va, 5u8] + seq![8u8, vb, 3u8] =~= seq![8u8, va, 5u8, 8u8, vb, 3u8]);
    }
    assert(spec_compile(src, table, 0) == Ok::<(CState, Seq<u8>), CompErrV>((st5, seq![
        8u8,
        va,
        5u8,
        8u8,
        vb,
        3u8,
    ])));
}


/// The word of a nonzero small integer is no zero word: its exponent
/// field is set, so a division by it is never a division by zero.
proof fn lemma_small_bits_nonzero(n: int)
    requires
        1 <= n <= 127,
    ensures
        !spec_is_zero_bits(dbl_bits_of_small(n)),
{
    let a = n as u64;
    let k = crate::encoding::ilog2_small(a as int) as u64;
    assert(k <= 6);
    assert((1u64 << k) <= a && a < (1u64 << (k + 1))) by {
        assert((1u64 << 0) == 1 && (1u64 << 1) == 2 && (1u64 << 2) == 4 && (1u64 << 3) == 8
            && (1u64 << 4) == 16 && (1u64 << 5) == 32 && (1u64 << 6) == 64 && (1u64 << 7)
            == 128) by (bit_vector);
    }
    let m = ((a - ((1u64 << k) as u64)) as u64) << (((52 - k) as u64));
    let y = ((1023 + k) as u64) << 52;
    assert(0u64 | y | m == y | m) by (bit_vector);
    assert(dbl_bits_of_small(n) == y | m);
    assert((y | m) & 0x7fffffffffffffff != 0) by (bit_vector)
        requires
            k <= 6,
            y == ((1023 + k) as u64) << 52,
            m == ((a - ((1u64 << k) as u64)) as u64) << (((52 - k) as u64)),
            (1u64 << k) <= a && a < (1u64 << (k + 1)),
    ;
}


/// Left-associativity through the whole pipeline: `a - b - c` (or
/// `a / b / c` with nonzero divisors, one-digit literals) compiles, and the
/// machine running the compiled stream asks first for `a op b`, then
/// combines whatever came back with `c`, and finishes on that second reply
/// — `(a op b) op c`, never `a op (b op c)`.
pub proof fn lemma_left_assoc_pipeline(
    da: u8,
    db: u8,
    dc: u8,
    ob: u8,
    table: Seq<(Seq<u8>, u64)>,
    r1: u64,
    ans: Option<u64>,
)
    requires
        is_digit_byte(da),
        is_digit_byte(db),
        is_digit_byte(dc),
        ob == 45 || (ob == 47 && db != 48 && dc != 48),
    ensures
        ({
            let src = seq![da, 32u8, ob, 32u8, db, 32u8, ob, 32u8, dc];
            let oc: u8 = if ob == 45 { 2u8 } else { 4u8 };
            let e = seq![8u8, (da - 48) as u8, 8u8, (db - 48) as u8, oc, 8u8, (dc - 48) as u8, oc];
            let wa = dbl_bits_of_small(da - 48);
            let wb = dbl_bits_of_small(db - 48);
            let wc = dbl_bits_of_small(dc - 48);
            &&& spec_compile(src, table, 0) matches Ok(p) && p.1 == e
            &&& ({
                let (s1, out1) = spec_run(e, fresh_vm(ans));
                &&& out1 == Step::Request(Request::Binary { op: oc, lhs: wa, rhs: wb })
                &&& ({
                    let (s1p, e1) = spec_provide(s1, r1);
                    &&& e1 is None
                    &&& ({
                        let (s2, out2) = spec_run(e, s1p);
                        &&& out2 == Step::Request(Request::Binary { op: oc, lhs: r1, rhs: wc })
                        &&& (forall|r2: u64| #![auto] spec_provide(s2, r2).1 is None
                            && spec_run(e, spec_provide(s2, r2).0).1 == Step::Done(r2))
                    })
                })
            })
        }),
{
    lemma_left_assoc_emission(da, db, dc, ob, table);
    let oc: u8 = if ob == 45 { 2u8 } else { 4u8 };
    let e = seq![8u8, (da - 48) as u8, 8u8, (db - 48) as u8, oc, 8u8, (dc - 48) as u8, oc];
    assert(e.len() == 8 && e[0] == 8 && e[1] == (da - 48) as u8 && e[2] == 8 && e[3] == (db
        - 48) as u8 && e[4] == oc && e[5] == 8 && e[6] == (dc - 48) as u8 && e[7] == oc);
    let wa = dbl_bits_of_small(da - 48);
    let wb = dbl_bits_of_small(db - 48);
    let wc = dbl_bits_of_small(dc - 48);
    assert(spec_u8_as_i8((da - 48) as u8) == da - 48);
    assert(spec_u8_as_i8((db - 48) as u8) == db - 48);
    assert(spec_u8_as_i8((dc - 48) as u8) == dc - 48);

    let t1 = VmState { ip: 2, stack: Seq::<u64>::empty().push(wa), ans, pending: None };
    let t2 = VmState { ip: 4, stack: t1.stack.push(wb), ans, pending: None };
    assert(spec_run(e, fresh_vm(ans)) == spec_run(e, t1));
    assert(spec_run(e, t1) == spec_run(e, t2));
    assert(t2.stack.last() == wb && t2.stack.drop_last().last() == wa);
    assert(t2.stack.drop_last().drop_last() =~= Seq::<u64>::empty());
    if oc == 4 {
        lemma_small_bits_nonzero(db - 48);
    }
    let req1 = Request::Binary { op: oc, lhs: wa, rhs: wb };
    let s1 = VmState { ip: 5, stack: Seq::<u64>::empty(), ans, pending: Some(req1) };
    assert(spec_run(e, t2) == (s1, Step::Request(req1)));

    let s1p = VmState { ip: 5, stack: Seq::<u64>::empty().push(r1), ans, pending: None };
    assert(spec_provide(s1, r1) == (s1p, None::<VmError>));

    let t3 = VmState { ip: 7, stack: s1p.stack.push(wc), ans, pending: None };
    assert(spec_run(e, s1p) == spec_run(e, t3));
    assert(t3.stack.last() == wc && t3.stack.drop_last().last() == r1);
    assert(t3.stack.drop_last().drop_last() =~= Seq::<u64>::empty());
    if oc == 4 {
        lemma_small_bits_nonzero(dc - 48);
    }
    let req2 = Request::Binary { op: oc, lhs: r1, rhs: wc };
    let s2 = VmState { ip: 8, stack: Seq::<u64>::empty(), ans, pending: Some(req2) };
    assert(spec_run(e, t3) == (s2, Step::Request(req2)));

    assert forall|r2: u64| #![auto] spec_provide(s2, r2).1 is None && spec_run(
        e,
        spec_provide(s2, r2).0,
    ).1 == Step::Done(r2) by {
        let s2p = VmState { ip: 8, stack: Seq::<u64>::empty().push(r2), ans, pending: None };
        assert(spec_provide(s2, r2) == (s2p, None::<VmError>));
        assert(spec_run(e, s2p).1 == Step::Done(r2));
    }
}


/// Precedence through the whole pipeline: `a+b*c` (one-digit literals)
/// compiles, and the machine running the compiled stream asks first for
/// `b * c`, then combines `a` with whatever came back, and finishes on
/// that second reply — `a + (b * c)`, never `(a + b) * c`.
pub proof fn lemma_precedence_pipeline(
    da: u8,
    db: u8,
    dc: u8,
    table: Seq<(Seq<u8>, u64)>,
    r1: u64,
    ans: Option<u64>,
)
    requires
        is_digit_byte(da),
        is_digit_byte(db),
        is_digit_byte(dc),
    ensures
        ({
            let src = seq![da, 43u8, db, 42u8, dc];
            let e = seq![8u8, (da - 48) as u8, 8u8, (db - 48) as u8, 8u8, (dc - 48) as u8, 3u8, 1u8];
            let wa = dbl_bits_of_small(da - 48);
            let wb = dbl_bits_of_small(db - 48);
            let wc = dbl_bits_of_small(dc - 48);
            &&& spec_compile(src, table, 0) matches Ok(p) && p.1 == e
            &&& ({
                let (s1, out1) = spec_run(e, fresh_vm(ans));
                &&& out1 == Step::Request(Request::Binary { op: 3, lhs: wb, rhs: wc })
                &&& ({
                    let (s1p, e1) = spec_provide(s1, r1);
                    &&& e1 is None
                    &&& ({
                        let (s2, out2) = spec_run(e, s1p);
                        &&& out2 == Step::Request(Request::Binary { op: 1, lhs: wa, rhs: r1 })
                        &&& (forall|r2: u64| #![auto] spec_provide(s2, r2).1 is None
                            && spec_run(e, spec_provide(s2, r2).0).1 == Step::Done(r2))
                    })
                })
            })
        }),
{
    lemma_precedence_emission(da, db, dc, table);
    let e = seq![8u8, (da - 48) as u8, 8u8, (db - 48) as u8, 8u8, (dc - 48) as u8, 3u8, 1u8];
    assert(e.len() == 8 && e[0] == 8 && e[1] == (da - 48) as u8 && e[2] == 8 && e[3] == (db
        - 48) as u8 && e[4] == 8 && e[5] == (dc - 48) as u8 && e[6] == 3 && e[7] == 1);
    let wa = dbl_bits_of_small(da - 48);
    let wb = dbl_bits_of_small(db - 48);
    let wc = dbl_bits_of_small(dc - 48);
    assert(spec_u8_as_i8((da - 48) as u8) == da - 48);
    assert(spec_u8_as_i8((db - 48) as u8) == db - 48);
    assert(spec_u8_as_i8((dc - 48) as u8) == dc - 48);

    let t1 = VmState { ip: 2, stack: Seq::<u64>::empty().push(wa), ans, pending: None };
    let t2 = VmState { ip: 4, stack: t1.stack.push(wb), ans, pending: None };
    let t3 = VmState { ip: 6, stack: t2.stack.push(wc), ans, pending: None };
    assert(spec_run(e, fresh_vm(ans)) == spec_run(e, t1));
    assert(spec_run(e, t1) == spec_run(e, t2));
    assert(spec_run(e, t2) == spec_run(e, t3));
    assert(t3.stack.last() == wc && t3.stack.drop_last().last() == wb);
    assert(t3.stack.drop_last().drop_last() =~= Seq::<u64>::empty().push(wa));
    let req1 = Request::Binary { op: 3, lhs: wb, rhs: wc };
    let s1 = VmState { ip: 7, stack: Seq::<u64>::empty().push(wa), ans, pending: Some(req1) };
    assert(spec_run(e, t3) == (s1, Step::Request(req1)));

    let s1p = VmState { ip: 7, stack: s1.stack.push(r1), ans, pending: None };
    assert(spec_provide(s1, r1) == (s1p, None::<VmError>));
    assert(s1p.stack.last() == r1 && s1p.stack.drop_last().last() == wa);
    assert(s1p.stack.drop_last().drop_last() =~= Seq::<u64>::empty());
    let req2 = Request::Binary { op: 1, lhs: wa, rhs: r1 };
    let s2 = VmState { ip: 8, stack: Seq::<u64>::empty(), ans, pending: Some(req2) };
    assert(spec_run(e, s1p) == (s2, Step::Request(req2)));

    assert forall|r2: u64| #![auto] spec_provide(s2, r2).1 is None && spec_run(
        e,
        spec_provide(s2, r2).0,
    ).1 == Step::Done(r2) by {
        let s2p = VmState { ip: 8, stack: Seq::<u64>::empty().push(r2), ans, pending: None };
        assert(spec_provide(s2, r2) == (s2p, None::<VmError>));
        assert(spec_run(e, s2p).1 == Step::Done(r2));
    }
}

} // verus!
