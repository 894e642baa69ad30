//! The code generator: instruction selection and binary encoding.
//!
//! [`spec_compile`] is the specification: a recursive definition of the
//! bytes, tables and header state one compilation step leaves behind.
//! [`compile`] is the executable generator, proved to realize it.

use vstd::prelude::*;

use crate::errors::CErr;
use crate::tables::{FloatOp, FloatTabs, HeaderState};
use crate::tokens::Tok;

verus! {

// ---------------------------------------------------------------------------
// Mnemonics
// ---------------------------------------------------------------------------
/// The mnemonic `keeploop`, as bytes.
pub open spec fn kw_keeploop() -> Seq<u8> {
    seq![('k' as u8), ('e' as u8), ('e' as u8), ('p' as u8), ('l' as u8), ('o' as u8), ('o' as u8), ('p' as u8)]
}

/// The mnemonic `keepopen`, as bytes.
pub open spec fn kw_keepopen() -> Seq<u8> {
    seq![('k' as u8), ('e' as u8), ('e' as u8), ('p' as u8), ('o' as u8), ('p' as u8), ('e' as u8), ('n' as u8)]
}

/// The mnemonic `endhead`, as bytes.
pub open spec fn kw_endhead() -> Seq<u8> {
    seq![('e' as u8), ('n' as u8), ('d' as u8), ('h' as u8), ('e' as u8), ('a' as u8), ('d' as u8)]
}

/// The mnemonic `headerbytes`, as bytes.
pub open spec fn kw_headerbytes() -> Seq<u8> {
    seq![('h' as u8), ('e' as u8), ('a' as u8), ('d' as u8), ('e' as u8), ('r' as u8), ('b' as u8), ('y' as u8), ('t' as u8), ('e' as u8), ('s' as u8)]
}

/// The mnemonic `noop`, as bytes.
pub open spec fn kw_noop() -> Seq<u8> {
    seq![('n' as u8), ('o' as u8), ('o' as u8), ('p' as u8)]
}

/// The mnemonic `cpix`, as bytes.
pub open spec fn kw_cpix() -> Seq<u8> {
    seq![('c' as u8), ('p' as u8), ('i' as u8), ('x' as u8)]
}

/// The mnemonic `pix`, as bytes.
pub open spec fn kw_pix() -> Seq<u8> {
    seq![('p' as u8), ('i' as u8), ('x' as u8)]
}

/// The mnemonic `var`, as bytes.
pub open spec fn kw_var() -> Seq<u8> {
    seq![('v' as u8), ('a' as u8), ('r' as u8)]
}

/// The mnemonic `let`, as bytes.
pub open spec fn kw_let() -> Seq<u8> {
    seq![('l' as u8), ('e' as u8), ('t' as u8)]
}

/// The mnemonic `fdiv`, as bytes.
pub open spec fn kw_fdiv() -> Seq<u8> {
    seq![('f' as u8), ('d' as u8), ('i' as u8), ('v' as u8)]
}

/// The mnemonic `fsub`, as bytes.
pub open spec fn kw_fsub() -> Seq<u8> {
    seq![('f' as u8), ('s' as u8), ('u' as u8), ('b' as u8)]
}

/// The mnemonic `fadd`, as bytes.
pub open spec fn kw_fadd() -> Seq<u8> {
    seq![('f' as u8), ('a' as u8), ('d' as u8), ('d' as u8)]
}

/// The mnemonic `fmul`, as bytes.
pub open spec fn kw_fmul() -> Seq<u8> {
    seq![('f' as u8), ('m' as u8), ('u' as u8), ('l' as u8)]
}

/// The mnemonic `div`, as bytes.
pub open spec fn kw_div() -> Seq<u8> {
    seq![('d' as u8), ('i' as u8), ('v' as u8)]
}

/// The mnemonic `sub`, as bytes.
pub open spec fn kw_sub() -> Seq<u8> {
    seq![('s' as u8), ('u' as u8), ('b' as u8)]
}

/// The mnemonic `add`, as bytes.
pub open spec fn kw_add() -> Seq<u8> {
    seq![('a' as u8), ('d' as u8), ('d' as u8)]
}

/// The mnemonic `mul`, as bytes.
pub open spec fn kw_mul() -> Seq<u8> {
    seq![('m' as u8), ('u' as u8), ('l' as u8)]
}

/// The mnemonic `fjmp`, as bytes.
pub open spec fn kw_fjmp() -> Seq<u8> {
    seq![('f' as u8), ('j' as u8), ('m' as u8), ('p' as u8)]
}

/// The mnemonic `tjmp`, as bytes.
pub open spec fn kw_tjmp() -> Seq<u8> {
    seq![('t' as u8), ('j' as u8), ('m' as u8), ('p' as u8)]
}

/// The mnemonic `jmp`, as bytes.
pub open spec fn kw_jmp() -> Seq<u8> {
    seq![('j' as u8), ('m' as u8), ('p' as u8)]
}

/// The mnemonic `bjmp`, as bytes.
pub open spec fn kw_bjmp() -> Seq<u8> {
    seq![('b' as u8), ('j' as u8), ('m' as u8), ('p' as u8)]
}

/// The mnemonic `gt`, as bytes.
pub open spec fn kw_gt() -> Seq<u8> {
    seq![('g' as u8), ('t' as u8)]
}

/// The mnemonic `lt`, as bytes.
pub open spec fn kw_lt() -> Seq<u8> {
    seq![('l' as u8), ('t' as u8)]
}

/// The mnemonic `key`, as bytes.
pub open spec fn kw_key() -> Seq<u8> {
    seq![('k' as u8), ('e' as u8), ('y' as u8)]
}

/// The mnemonic `routine`, as bytes.
pub open spec fn kw_routine() -> Seq<u8> {
    seq![('r' as u8), ('o' as u8), ('u' as u8), ('t' as u8), ('i' as u8), ('n' as u8), ('e' as u8)]
}

/// The mnemonic `call`, as bytes.
pub open spec fn kw_call() -> Seq<u8> {
    seq![('c' as u8), ('a' as u8), ('l' as u8), ('l' as u8)]
}

/// The mnemonic `if`, as bytes.
pub open spec fn kw_if() -> Seq<u8> {
    seq![('i' as u8), ('f' as u8)]
}

/// The mnemonic `rep`, as bytes.
pub open spec fn kw_rep() -> Seq<u8> {
    seq![('r' as u8), ('e' as u8), ('p' as u8)]
}

/// The mnemonic `spr`, as bytes.
pub open spec fn kw_spr() -> Seq<u8> {
    seq![('s' as u8), ('p' as u8), ('r' as u8)]
}

/// The mnemonic `flsh`, as bytes.
pub open spec fn kw_flsh() -> Seq<u8> {
    seq![('f' as u8), ('l' as u8), ('s' as u8), ('h' as u8)]
}

/// The mnemonic `cls`, as bytes.
pub open spec fn kw_cls() -> Seq<u8> {
    seq![('c' as u8), ('l' as u8), ('s' as u8)]
}

/// The mnemonic `bytes`, as bytes.
pub open spec fn kw_bytes() -> Seq<u8> {
    seq![('b' as u8), ('y' as u8), ('t' as u8), ('e' as u8), ('s' as u8)]
}

/// The instruction (or directive) an identifier in statement position
/// names, or `Unknown`.
#[derive(Debug, Clone, Copy, PartialEq, Eq, Structural)]
pub enum Mn {
    KeepLoop,
    KeepOpen,
    EndHead,
    HeaderBytes,
    Noop,
    Cpix,
    Pix,
    VarDecl,
    LetDecl,
    FDiv,
    FSub,
    FAdd,
    FMul,
    IntDiv,
    IntSub,
    IntAdd,
    IntMul,
    FJmp,
    TJmp,
    Jmp,
    BJmp,
    Gt,
    Lt,
    Key,
    Routine,
    Call,
    IfBlock,
    Rep,
    Spr,
    Flsh,
    Cls,
    RawBytes,
    Unknown,
}

/// Which mnemonic a byte string names.
pub open spec fn spec_mnemonic(s: Seq<u8>) -> Mn {
    if s =~= kw_keeploop() {
        Mn::KeepLoop
    } else if s =~= kw_keepopen() {
        Mn::KeepOpen
    } else if s =~= kw_endhead() {
        Mn::EndHead
    } else if s =~= kw_headerbytes() {
        Mn::HeaderBytes
    } else if s =~= kw_noop() {
        Mn::Noop
    } else if s =~= kw_cpix() {
        Mn::Cpix
    } else if s =~= kw_pix() {
        Mn::Pix
    } else if s =~= kw_var() {
        Mn::VarDecl
    } else if s =~= kw_let() {
        Mn::LetDecl
    } else if s =~= kw_fdiv() {
        Mn::FDiv
    } else if s =~= kw_fsub() {
        Mn::FSub
    } else if s =~= kw_fadd() {
        Mn::FAdd
    } else if s =~= kw_fmul() {
        Mn::FMul
    } else if s =~= kw_div() {
        Mn::IntDiv
    } else if s =~= kw_sub() {
        Mn::IntSub
    } else if s =~= kw_add() {
        Mn::IntAdd
    } else if s =~= kw_mul() {
        Mn::IntMul
    } else if s =~= kw_fjmp() {
        Mn::FJmp
    } else if s =~= kw_tjmp() {
        Mn::TJmp
    } else if s =~= kw_jmp() {
        Mn::Jmp
    } else if s =~= kw_bjmp() {
        Mn::BJmp
    } else if s =~= kw_gt() {
        Mn::Gt
    } else if s =~= kw_lt() {
        Mn::Lt
    } else if s =~= kw_key() {
        Mn::Key
    } else if s =~= kw_routine() {
        Mn::Routine
    } else if s =~= kw_call() {
        Mn::Call
    } else if s =~= kw_if() {
        Mn::IfBlock
    } else if s =~= kw_rep() {
        Mn::Rep
    } else if s =~= kw_spr() {
        Mn::Spr
    } else if s =~= kw_flsh() {
        Mn::Flsh
    } else if s =~= kw_cls() {
        Mn::Cls
    } else if s =~= kw_bytes() {
        Mn::RawBytes
    } else {
        Mn::Unknown
    }
}

} // verus!
// The compilation state and its specification semantics.

verus! {

/// The eight little-endian bytes of a 64-bit value.
pub open spec fn le8(x: u64) -> Seq<u8> {
    vstd::bytes::spec_u64_to_le_bytes(x)
}

/// The eight little-endian bytes of a signed value's two's complement.
pub open spec fn le8i(x: i64) -> Seq<u8> {
    le8(x as u64)
}

/// The whole state one compilation threads along: the output buffer, the
/// two tables, and the header bookkeeping.
pub ghost struct St {
    pub out: Seq<u8>,
    pub labels: Map<Seq<u8>, u64>,
    pub routines: Map<Seq<u8>, Seq<Tok>>,
    pub hsize: nat,
    pub hclosed: bool,
}

/// Consistency of the header bookkeeping with the output: the counted
/// header bytes, and the terminator once `endhead` ran, are in the buffer.
pub open spec fn st_wf(st: St) -> bool {
    st.hsize + (if st.hclosed {
        1int
    } else {
        0int
    }) <= st.out.len()
}

/// `bytes` appended to the output.
pub open spec fn emit(st: St, bytes: Seq<u8>) -> St {
    St { out: st.out + bytes, ..st }
}

/// The instruction-region offset a label declared now records: the output
/// length less the header bytes and, once the header was closed, its
/// terminating zero.
pub open spec fn label_off(st: St) -> int {
    st.out.len() - st.hsize - (if st.hclosed {
        1int
    } else {
        0int
    })
}

/// Truncating signed division, as the host's integer division rounds:
/// the magnitudes are divided and the sign is put back.
pub open spec fn trunc_div(a: int, b: int) -> int
    recommends
        b != 0,
{
    if a == 0 {
        0
    } else if a > 0 && b > 0 {
        a / b
    } else if a < 0 && b < 0 {
        (a * -1) / (b * -1)
    } else if a < 0 {
        ((a * -1) / b) * -1
    } else {
        (a / (b * -1)) * -1
    }
}

/// The folded value of an integer arithmetic mnemonic, before range checks.
pub open spec fn fold_int(mn: Mn, a: i64, b: i64) -> int
    recommends
        mn == Mn::IntDiv ==> b != 0,
{
    if mn == Mn::IntAdd {
        a + b
    } else if mn == Mn::IntSub {
        a - b
    } else if mn == Mn::IntMul {
        a * b
    } else {
        trunc_div(a as int, b as int)
    }
}

/// How many byte-literal tokens stand at and after position `i`.
pub open spec fn byte_run_at(code: Seq<Tok>, i: int) -> nat
    decreases code.len() - i,
{
    if i < 0 || i >= code.len() || !(code[i] is Byte) {
        0
    } else {
        1 + byte_run_at(code, i + 1)
    }
}

/// The payloads of `cnt` byte literals from position `i` on.
pub open spec fn byte_payloads(code: Seq<Tok>, i: int, cnt: int) -> Seq<u8> {
    Seq::new(
        if cnt >= 0 {
            cnt as nat
        } else {
            0nat
        },
        |q: int| code[i + q]->Byte_0,
    )
}

/// How many of these bytes are not zero: what `headerbytes` counts.
pub open spec fn nonzero_count(s: Seq<u8>) -> nat
    decreases s.len(),
{
    if s.len() == 0 {
        0
    } else {
        nonzero_count(s.drop_last()) + (if s.last() != 0 {
            1nat
        } else {
            0nat
        })
    }
}

/// Eight bytes written over the buffer at position `at`: the backpatch.
pub open spec fn splice8(s: Seq<u8>, at: int, b: Seq<u8>) -> Seq<u8> {
    s.take(at) + b + s.skip(at + 8)
}

/// The label name a jump operand refers to: a bare identifier or a label
/// token both name the target.
pub open spec fn jump_target(t: Tok) -> Option<Seq<u8>> {
    match t {
        Tok::Ident(n) => Some(n),
        Tok::Label(n) => Some(n),
        _ => None,
    }
}

/// The runtime opcode of a float arithmetic mnemonic.
pub open spec fn float_rt_opcode(mn: Mn) -> u8 {
    if mn == Mn::FDiv {
        0xf0
    } else if mn == Mn::FSub {
        0xf1
    } else if mn == Mn::FAdd {
        0xf2
    } else {
        0xf3
    }
}

/// The runtime opcode of an integer arithmetic mnemonic.
pub open spec fn int_rt_opcode(mn: Mn) -> u8 {
    if mn == Mn::IntDiv {
        0xf4
    } else if mn == Mn::IntSub {
        0xf5
    } else if mn == Mn::IntAdd {
        0xf6
    } else {
        0xf7
    }
}

/// The fold-table operation of a float arithmetic mnemonic.
pub open spec fn float_op_of(mn: Mn) -> FloatOp {
    if mn == Mn::FDiv {
        FloatOp::Div
    } else if mn == Mn::FSub {
        FloatOp::Sub
    } else if mn == Mn::FAdd {
        FloatOp::Add
    } else {
        FloatOp::Mul
    }
}

/// The semantics of the code generator: the state left after consuming
/// `code` from state `st`, or the first compile error. `ft` supplies the
/// float payloads and folds; `fuel` bounds routine expansion depth, so a
/// routine that invokes itself is rejected rather than expanded forever.
///
/// Two points of the encoding deserve note. The header flag `keeploop`
/// shares its byte value with the `pix` opcode: the mnemonic, not the
/// byte, selects the meaning, so the two never collide. And a label is
/// resolvable only after its declaration; the one forward jump in the
/// language is the backpatched target of `if`.
pub open spec fn spec_compile(code: Seq<Tok>, st: St, ft: FloatTabs, fuel: nat) -> Result<St, CErr>
    decreases fuel, code, 0int,
    via spec_compile_decreases
{
    if code.len() == 0 {
        Ok(st)
    } else {
        match code[0] {
            Tok::EndL => spec_compile(code.skip(1), st, ft, fuel),
            Tok::Label(name) => spec_compile(
                code.skip(1),
                St { labels: st.labels.insert(name, label_off(st) as u64), ..st },
                ft,
                fuel,
            ),
            Tok::Ident(m) => {
                let mn = spec_mnemonic(m);
                if mn == Mn::KeepLoop {
                    spec_compile(
                        code.skip(1),
                        St { out: st.out + seq![0x02u8], hsize: st.hsize + 1, ..st },
                        ft,
                        fuel,
                    )
                } else if mn == Mn::KeepOpen {
                    spec_compile(
                        code.skip(1),
                        St { out: st.out + seq![0x04u8], hsize: st.hsize + 1, ..st },
                        ft,
                        fuel,
                    )
                } else if mn == Mn::EndHead {
                    spec_compile(
                        code.skip(1),
                        St { out: st.out + seq![0x00u8], hclosed: true, ..st },
                        ft,
                        fuel,
                    )
                } else if mn == Mn::HeaderBytes {
                    let run = byte_run_at(code, 1) as int;
                    let bs = byte_payloads(code, 1, run);
                    let consumed = 1 + run + (if 1 + run < code.len() {
                        1int
                    } else {
                        0int
                    });
                    spec_compile(
                        code.skip(consumed),
                        St { out: st.out + bs, hsize: st.hsize + nonzero_count(bs), ..st },
                        ft,
                        fuel,
                    )
                } else if mn == Mn::RawBytes {
                    let run = byte_run_at(code, 1) as int;
                    let bs = byte_payloads(code, 1, run);
                    let consumed = 1 + run + (if 1 + run < code.len() {
                        1int
                    } else {
                        0int
                    });
                    spec_compile(code.skip(consumed), emit(st, bs), ft, fuel)
                } else if mn == Mn::Noop {
                    spec_compile(code.skip(1), emit(st, seq![0x00u8]), ft, fuel)
                } else if mn == Mn::Flsh {
                    spec_compile(code.skip(1), emit(st, seq![0xfbu8]), ft, fuel)
                } else if mn == Mn::Cls {
                    if code.len() >= 2 && code[1] is Byte {
                        spec_compile(code.skip(2), emit(st, seq![0xfcu8, code[1]->Byte_0]), ft, fuel)
                    } else {
                        Err(CErr::BadOperand(m))
                    }
                } else if mn == Mn::Cpix {
                    if code.len() >= 4 && code[1] is Byte && code[2] is Byte && code[3] is Byte {
                        spec_compile(
                            code.skip(4),
                            emit(
                                st,
                                seq![0x01u8, code[1]->Byte_0, code[2]->Byte_0, code[3]->Byte_0],
                            ),
                            ft,
                            fuel,
                        )
                    } else {
                        Err(CErr::BadOperand(m))
                    }
                } else if mn == Mn::Pix {
                    if code.len() >= 4 && code[1] is Var && code[2] is Var && code[3] is Byte {
                        spec_compile(
                            code.skip(4),
                            emit(st, seq![0x02u8, code[1]->Var_0, code[2]->Var_0, code[3]->Byte_0]),
                            ft,
                            fuel,
                        )
                    } else {
                        Err(CErr::BadOperand(m))
                    }
                } else if mn == Mn::Gt {
                    if code.len() >= 4 && code[1] is Var && code[2] is Var && code[3] is Var {
                        spec_compile(
                            code.skip(4),
                            emit(st, seq![0xb1u8, code[1]->Var_0, code[2]->Var_0, code[3]->Var_0]),
                            ft,
                            fuel,
                        )
                    } else {
                        Err(CErr::BadOperand(m))
                    }
                } else if mn == Mn::Lt {
                    if code.len() >= 4 && code[1] is Var && code[2] is Var && code[3] is Var {
                        spec_compile(
                            code.skip(4),
                            emit(st, seq![0xb2u8, code[1]->Var_0, code[2]->Var_0, code[3]->Var_0]),
                            ft,
                            fuel,
                        )
                    } else {
                        Err(CErr::BadOperand(m))
                    }
                } else if mn == Mn::Key {
                    if code.len() >= 3 && code[1] is Byte && code[2] is Var {
                        spec_compile(
                            code.skip(3),
                            emit(st, seq![0xd0u8, code[1]->Byte_0, code[2]->Var_0]),
                            ft,
                            fuel,
                        )
                    } else {
                        Err(CErr::BadOperand(m))
                    }
                } else if mn == Mn::Spr {
                    if code.len() >= 4 && code[1] is Array && code[2] is Var && code[3] is Var {
                        spec_compile(
                            code.skip(4),
                            emit(
                                st,
                                seq![0x03u8] + code[1]->Array_0 + seq![
                                    code[2]->Var_0,
                                    code[3]->Var_0,
                                ],
                            ),
                            ft,
                            fuel,
                        )
                    } else {
                        Err(CErr::BadOperand(m))
                    }
                } else if mn == Mn::VarDecl || mn == Mn::LetDecl {
                    let op: u8 = if mn == Mn::VarDecl {
                        0xa1
                    } else {
                        0xa2
                    };
                    if code.len() >= 3 && code[1] is Var {
                        let a = code[1]->Var_0;
                        match code[2] {
                            Tok::Str(sv) => spec_compile(
                                code.skip(3),
                                emit(st, seq![op, 0xabu8] + sv + seq![a]),
                                ft,
                                fuel,
                            ),
                            Tok::Num(nv) => spec_compile(
                                code.skip(3),
                                emit(st, seq![op, 0xe0u8] + le8i(nv) + seq![a]),
                                ft,
                                fuel,
                            ),
                            Tok::Float(txt) => if ft.nums.contains_key(txt) {
                                spec_compile(
                                    code.skip(3),
                                    emit(st, seq![op, 0xf0u8] + le8(ft.nums[txt]) + seq![a]),
                                    ft,
                                    fuel,
                                )
                            } else {
                                Err(CErr::UnresolvedFloat)
                            },
                            Tok::Array(av) => spec_compile(
                                code.skip(3),
                                emit(st, seq![op, 0x8au8] + av + seq![a]),
                                ft,
                                fuel,
                            ),
                            _ => Err(CErr::BadOperand(m)),
                        }
                    } else {
                        Err(CErr::BadOperand(m))
                    }
                } else if mn == Mn::FDiv || mn == Mn::FSub || mn == Mn::FAdd || mn == Mn::FMul {
                    if code.len() >= 4 {
                        if code[1] is Float && code[2] is Float && code[3] is Var {
                            let key = (float_op_of(mn), code[1]->Float_0, code[2]->Float_0);
                            if ft.folds.contains_key(key) {
                                spec_compile(
                                    code.skip(4),
                                    emit(
                                        st,
                                        seq![0xa1u8, 0xf0u8] + le8(ft.folds[key]) + seq![
                                            code[3]->Var_0,
                                        ],
                                    ),
                                    ft,
                                    fuel,
                                )
                            } else {
                                Err(CErr::UnresolvedFloat)
                            }
                        } else if code[1] is Var && code[2] is Var && code[3] is Var {
                            spec_compile(
                                code.skip(4),
                                emit(
                                    st,
                                    seq![
                                        float_rt_opcode(mn),
                                        code[1]->Var_0,
                                        code[2]->Var_0,
                                        code[3]->Var_0,
                                    ],
                                ),
                                ft,
                                fuel,
                            )
                        } else {
                            Err(CErr::BadOperand(m))
                        }
                    } else {
                        Err(CErr::BadOperand(m))
                    }
                } else if mn == Mn::IntDiv || mn == Mn::IntSub || mn == Mn::IntAdd || mn
                    == Mn::IntMul {
                    if code.len() >= 4 {
                        if code[1] is Num && code[2] is Num && code[3] is Var {
                            let a = code[1]->Num_0;
                            let b = code[2]->Num_0;
                            if mn == Mn::IntDiv && b == 0 {
                                Err(CErr::FoldDivideByZero)
                            } else {
                                let v = fold_int(mn, a, b);
                                if v < i64::MIN || v > i64::MAX {
                                    Err(CErr::FoldOverflow)
                                } else {
                                    spec_compile(
                                        code.skip(4),
                                        emit(
                                            st,
                                            seq![0xa1u8, 0xe0u8] + le8i(v as i64) + seq![
                                                code[3]->Var_0,
                                            ],
                                        ),
                                        ft,
                                        fuel,
                                    )
                                }
                            }
                        } else if code[1] is Var && code[2] is Var && code[3] is Var {
                            spec_compile(
                                code.skip(4),
                                emit(
                                    st,
                                    seq![
                                        int_rt_opcode(mn),
                                        code[1]->Var_0,
                                        code[2]->Var_0,
                                        code[3]->Var_0,
                                    ],
                                ),
                                ft,
                                fuel,
                            )
                        } else {
                            Err(CErr::BadOperand(m))
                        }
                    } else {
                        Err(CErr::BadOperand(m))
                    }
                } else if mn == Mn::FJmp || mn == Mn::TJmp {
                    if code.len() >= 3 && code[1] is Var {
                        match jump_target(code[2]) {
                            Some(name) => if st.labels.contains_key(name) {
                                let opc: u8 = if mn == Mn::FJmp {
                                    0xe2
                                } else {
                                    0xe1
                                };
                                spec_compile(
                                    code.skip(3),
                                    emit(st, seq![opc, code[1]->Var_0] + le8(st.labels[name])),
                                    ft,
                                    fuel,
                                )
                            } else {
                                Err(CErr::UnknownLabel(name))
                            },
                            None => Err(CErr::BadOperand(m)),
                        }
                    } else {
                        Err(CErr::BadOperand(m))
                    }
                } else if mn == Mn::Jmp {
                    if code.len() >= 2 {
                        match jump_target(code[1]) {
                            Some(name) => if st.labels.contains_key(name) {
                                spec_compile(
                                    code.skip(2),
                                    emit(st, seq![0xe3u8] + le8(st.labels[name])),
                                    ft,
                                    fuel,
                                )
                            } else {
                                Err(CErr::UnknownLabel(name))
                            },
                            None => Err(CErr::BadOperand(m)),
                        }
                    } else {
                        Err(CErr::BadOperand(m))
                    }
                } else if mn == Mn::BJmp {
                    if code.len() >= 2 && code[1] is Num {
                        spec_compile(
                            code.skip(2),
                            emit(st, seq![0xe3u8] + le8i(code[1]->Num_0)),
                            ft,
                            fuel,
                        )
                    } else {
                        Err(CErr::BadOperand(m))
                    }
                } else if mn == Mn::Routine {
                    if code.len() >= 3 && code[1] is Ident && code[2] is Block {
                        spec_compile(
                            code.skip(3),
                            St {
                                routines: st.routines.insert(code[1]->Ident_0, code[2]->Block_0),
                                ..st
                            },
                            ft,
                            fuel,
                        )
                    } else {
                        Err(CErr::BadOperand(m))
                    }
                } else if mn == Mn::Call {
                    if code.len() >= 2 && code[1] is Ident {
                        let name = code[1]->Ident_0;
                        if st.routines.contains_key(name) {
                            if fuel == 0 {
                                Err(CErr::RoutineRecursion)
                            } else {
                                match spec_compile(st.routines[name], st, ft, (fuel - 1) as nat) {
                                    Err(e) => Err(e),
                                    Ok(st2) => spec_compile(code.skip(2), st2, ft, fuel),
                                }
                            }
                        } else {
                            Err(CErr::UnknownRoutine(name))
                        }
                    } else {
                        Err(CErr::BadOperand(m))
                    }
                } else if mn == Mn::IfBlock {
                    if code.len() >= 3 && code[1] is Var && code[2] is Block {
                        let marker = st.out.len() + 2;
                        let st1 = emit(st, seq![0xe2u8, code[1]->Var_0] + le8(0));
                        match spec_compile(code[2]->Block_0, st1, ft, fuel) {
                            Err(e) => Err(e),
                            Ok(st2) => spec_compile(
                                code.skip(3),
                                St {
                                    out: splice8(st2.out, marker as int, le8(st2.out.len() as u64)),
                                    ..st2
                                },
                                ft,
                                fuel,
                            ),
                        }
                    } else {
                        Err(CErr::BadOperand(m))
                    }
                } else if mn == Mn::Rep {
                    if code.len() >= 3 && code[1] is Num && code[2] is Block {
                        let cnt = code[1]->Num_0;
                        let reps: nat = if cnt > 0 {
                            cnt as nat
                        } else {
                            0nat
                        };
                        match spec_rep(code[2]->Block_0, reps, st, ft, fuel) {
                            Err(e) => Err(e),
                            Ok(st2) => spec_compile(code.skip(3), st2, ft, fuel),
                        }
                    } else {
                        Err(CErr::BadOperand(m))
                    }
                } else {
                    Err(CErr::UnknownMnemonic(m))
                }
            },
            _ => Err(CErr::StrayToken),
        }
    }
}

#[via_fn]
proof fn spec_compile_decreases(code: Seq<Tok>, st: St, ft: FloatTabs, fuel: nat) {
    if code.len() >= 3 {
        assert(decreases_to!(code => code[2]));
    }
    if code.len() >= 1 {
        let run = byte_run_at(code, 1) as int;
        lemma_byte_run_at_bound(code, 1);
    }
}

/// A byte run never runs past the end of the tokens.
pub proof fn lemma_byte_run_at_bound(code: Seq<Tok>, i: int)
    requires
        0 <= i,
    ensures
        i + byte_run_at(code, i) <= code.len() || byte_run_at(code, i) == 0,
    decreases code.len() - i,
{
    if 0 <= i < code.len() && code[i] is Byte {
        lemma_byte_run_at_bound(code, i + 1);
    }
}

/// Compiling `b` exactly `n` times in sequence: the unrolling of `rep`.
pub open spec fn spec_rep(b: Seq<Tok>, n: nat, st: St, ft: FloatTabs, fuel: nat) -> Result<St, CErr>
    decreases fuel, b, n + 1int,
{
    if n == 0 {
        Ok(st)
    } else {
        match spec_compile(b, st, ft, fuel) {
            Err(e) => Err(e),
            Ok(st2) => spec_rep(b, (n - 1) as nat, st2, ft, fuel),
        }
    }
}

} // verus!
// The executable mnemonic classifier.

verus! {

use crate::tokens::{copy_tokens, lemma_toks_view, tok_view, toks_view, Token};
use crate::errors::CompileError;
use crate::tables::{ByteTable, FloatEval, RoutineTable};

/// A fresh vector with the same bytes.
pub fn copy_bytes(v: &Vec<u8>) -> (r: Vec<u8>)
    ensures
        r@ == v@,
{
    let mut w: Vec<u8> = Vec::new();
    w.extend_from_slice(v.as_slice());
    proof {
        assert(w@ =~= v@);
    }
    w
}

/// Which mnemonic an identifier names; `Unknown` if none.
pub fn mnemonic_of(m: &Vec<u8>) -> (r: Mn)
    ensures
        r == spec_mnemonic(m@),
{
    if m.len() == 2 {
        if m[0] == ('g' as u8) && m[1] == ('t' as u8) {
            proof {
                assert(m@ =~= kw_gt());
            }
            return Mn::Gt;
        }
        if m[0] == ('l' as u8) && m[1] == ('t' as u8) {
            proof {
                assert(m@ =~= kw_lt());
            }
            return Mn::Lt;
        }
        if m[0] == ('i' as u8) && m[1] == ('f' as u8) {
            proof {
                assert(m@ =~= kw_if());
            }
            return Mn::IfBlock;
        }
        Mn::Unknown
    } else if m.len() == 3 {
        if m[0] == ('p' as u8) && m[1] == ('i' as u8) && m[2] == ('x' as u8) {
            proof {
                assert(m@ =~= kw_pix());
            }
            return Mn::Pix;
        }
        if m[0] == ('v' as u8) && m[1] == ('a' as u8) && m[2] == ('r' as u8) {
            proof {
                assert(m@ =~= kw_var());
            }
            return Mn::VarDecl;
        }
        if m[0] == ('l' as u8) && m[1] == ('e' as u8) && m[2] == ('t' as u8) {
            proof {
                assert(m@ =~= kw_let());
            }
            return Mn::LetDecl;
        }
        if m[0] == ('d' as u8) && m[1] == ('i' as u8) && m[2] == ('v' as u8) {
            proof {
                assert(m@ =~= kw_div());
            }
            return Mn::IntDiv;
        }
        if m[0] == ('s' as u8) && m[1] == ('u' as u8) && m[2] == ('b' as u8) {
            proof {
                assert(m@ =~= kw_sub());
            }
            return Mn::IntSub;
        }
        if m[0] == ('a' as u8) && m[1] == ('d' as u8) && m[2] == ('d' as u8) {
            proof {
                assert(m@ =~= kw_add());
            }
            return Mn::IntAdd;
        }
        if m[0] == ('m' as u8) && m[1] == ('u' as u8) && m[2] == ('l' as u8) {
            proof {
                assert(m@ =~= kw_mul());
            }
            return Mn::IntMul;
        }
        if m[0] == ('j' as u8) && m[1] == ('m' as u8) && m[2] == ('p' as u8) {
            proof {
                assert(m@ =~= kw_jmp());
            }
            return Mn::Jmp;
        }
        if m[0] == ('k' as u8) && m[1] == ('e' as u8) && m[2] == ('y' as u8) {
            proof {
                assert(m@ =~= kw_key());
            }
            return Mn::Key;
        }
        if m[0] == ('r' as u8) && m[1] == ('e' as u8) && m[2] == ('p' as u8) {
            proof {
                assert(m@ =~= kw_rep());
            }
            return Mn::Rep;
        }
        if m[0] == ('s' as u8) && m[1] == ('p' as u8) && m[2] == ('r' as u8) {
            proof {
                assert(m@ =~= kw_spr());
            }
            return Mn::Spr;
        }
        if m[0] == ('c' as u8) && m[1] == ('l' as u8) && m[2] == ('s' as u8) {
            proof {
                assert(m@ =~= kw_cls());
            }
            return Mn::Cls;
        }
        Mn::Unknown
    } else if m.len() == 4 {
        if m[0] == ('n' as u8) && m[1] == ('o' as u8) && m[2] == ('o' as u8) && m[3] == ('p' as u8) {
            proof {
                assert(m@ =~= kw_noop());
            }
            return Mn::Noop;
        }
        if m[0] == ('c' as u8) && m[1] == ('p' as u8) && m[2] == ('i' as u8) && m[3] == ('x' as u8) {
            proof {
                assert(m@ =~= kw_cpix());
            }
            return Mn::Cpix;
        }
        if m[0] == ('f' as u8) && m[1] == ('d' as u8) && m[2] == ('i' as u8) && m[3] == ('v' as u8) {
            proof {
                assert(m@ =~= kw_fdiv());
            }
            return Mn::FDiv;
        }
        if m[0] == ('f' as u8) && m[1] == ('s' as u8) && m[2] == ('u' as u8) && m[3] == ('b' as u8) {
            proof {
                assert(m@ =~= kw_fsub());
            }
            return Mn::FSub;
        }
        if m[0] == ('f' as u8) && m[1] == ('a' as u8) && m[2] == ('d' as u8) && m[3] == ('d' as u8) {
            proof {
                assert(m@ =~= kw_fadd());
            }
            return Mn::FAdd;
        }
        if m[0] == ('f' as u8) && m[1] == ('m' as u8) && m[2] == ('u' as u8) && m[3] == ('l' as u8) {
            proof {
                assert(m@ =~= kw_fmul());
            }
            return Mn::FMul;
        }
        if m[0] == ('f' as u8) && m[1] == ('j' as u8) && m[2] == ('m' as u8) && m[3] == ('p' as u8) {
            proof {
                assert(m@ =~= kw_fjmp());
            }
            return Mn::FJmp;
        }
        if m[0] == ('t' as u8) && m[1] == ('j' as u8) && m[2] == ('m' as u8) && m[3] == ('p' as u8) {
            proof {
                assert(m@ =~= kw_tjmp());
            }
            return Mn::TJmp;
        }
        if m[0] == ('b' as u8) && m[1] == ('j' as u8) && m[2] == ('m' as u8) && m[3] == ('p' as u8) {
            proof {
                assert(m@ =~= kw_bjmp());
            }
            return Mn::BJmp;
        }
        if m[0] == ('c' as u8) && m[1] == ('a' as u8) && m[2] == ('l' as u8) && m[3] == ('l' as u8) {
            proof {
                assert(m@ =~= kw_call());
            }
            return Mn::Call;
        }
        if m[0] == ('f' as u8) && m[1] == ('l' as u8) && m[2] == ('s' as u8) && m[3] == ('h' as u8) {
            proof {
                assert(m@ =~= kw_flsh());
            }
            return Mn::Flsh;
        }
        Mn::Unknown
    } else if m.len() == 5 {
        if m[0] == ('b' as u8) && m[1] == ('y' as u8) && m[2] == ('t' as u8) && m[3] == ('e' as u8) && m[4] == ('s' as u8) {
            proof {
                assert(m@ =~= kw_bytes());
            }
            return Mn::RawBytes;
        }
        Mn::Unknown
    } else if m.len() == 7 {
        if m[0] == ('e' as u8) && m[1] == ('n' as u8) && m[2] == ('d' as u8) && m[3] == ('h' as u8) && m[4] == ('e' as u8) && m[5] == ('a' as u8) && m[6] == ('d' as u8) {
            proof {
                assert(m@ =~= kw_endhead());
            }
            return Mn::EndHead;
        }
        if m[0] == ('r' as u8) && m[1] == ('o' as u8) && m[2] == ('u' as u8) && m[3] == ('t' as u8) && m[4] == ('i' as u8) && m[5] == ('n' as u8) && m[6] == ('e' as u8) {
            proof {
                assert(m@ =~= kw_routine());
            }
            return Mn::Routine;
        }
        Mn::Unknown
    } else if m.len() == 8 {
        if m[0] == ('k' as u8) && m[1] == ('e' as u8) && m[2] == ('e' as u8) && m[3] == ('p' as u8) && m[4] == ('l' as u8) && m[5] == ('o' as u8) && m[6] == ('o' as u8) && m[7] == ('p' as u8) {
            proof {
                assert(m@ =~= kw_keeploop());
            }
            return Mn::KeepLoop;
        }
        if m[0] == ('k' as u8) && m[1] == ('e' as u8) && m[2] == ('e' as u8) && m[3] == ('p' as u8) && m[4] == ('o' as u8) && m[5] == ('p' as u8) && m[6] == ('e' as u8) && m[7] == ('n' as u8) {
            proof {
                assert(m@ =~= kw_keepopen());
            }
            return Mn::KeepOpen;
        }
        Mn::Unknown
    } else if m.len() == 11 {
        if m[0] == ('h' as u8) && m[1] == ('e' as u8) && m[2] == ('a' as u8) && m[3] == ('d' as u8) && m[4] == ('e' as u8) && m[5] == ('r' as u8) && m[6] == ('b' as u8) && m[7] == ('y' as u8) && m[8] == ('t' as u8) && m[9] == ('e' as u8) && m[10] == ('s' as u8) {
            proof {
                assert(m@ =~= kw_headerbytes());
            }
            return Mn::HeaderBytes;
        }
        Mn::Unknown
    } else {
        Mn::Unknown
    }
}

} // verus!
// The executable generator: shared machinery.

verus! {

use vstd::seq_lib::*;

/// The routine expansion depth limit: a `call` chain deeper than this is
/// rejected as routine recursion, so a routine that invokes itself cannot
/// expand forever.
pub const CALL_DEPTH_LIMIT: u64 = 64;

/// The compilation state the separate pieces of the generator's interface
/// denote together.
pub open spec fn st_of(
    out: Seq<u8>,
    labels: Map<Seq<u8>, u64>,
    routines: Map<Seq<u8>, Seq<Tok>>,
    h: HeaderState,
) -> St {
    St { out, labels, routines, hsize: h.size as nat, hclosed: h.closed }
}

/// What one generator step guarantees, stated over the state before
/// (`out0` and friends) and after (`out1` and friends): on success some
/// tokens were consumed and compiling the rest from the new state finishes
/// the job; on failure the error is the one the semantics assigns.
pub open spec fn gen_step_post(
    codev: Seq<Token>,
    i: usize,
    r: Result<usize, CompileError>,
    out0: Seq<u8>,
    l0: Map<Seq<u8>, u64>,
    r0: Map<Seq<u8>, Seq<Tok>>,
    h0: HeaderState,
    out1: Seq<u8>,
    l1: Map<Seq<u8>, u64>,
    r1: Map<Seq<u8>, Seq<Tok>>,
    h1: HeaderState,
    ft: FloatTabs,
    fuel: nat,
) -> bool {
    let model = toks_view(codev);
    let st = st_of(out0, l0, r0, h0);
    let st_new = st_of(out1, l1, r1, h1);
    out0.is_prefix_of(out1) && match r {
        Ok(j) => i < j <= codev.len() && spec_compile(model.skip(i as int), st, ft, fuel)
            == spec_compile(model.skip(j as int), st_new, ft, fuel) && st_wf(st_new),
        Err(e) => spec_compile(model.skip(i as int), st, ft, fuel) == Err::<St, CErr>(e@),
    }
}

/// Prefixes chain.
proof fn lemma_prefix_trans(a: Seq<u8>, b: Seq<u8>, c: Seq<u8>)
    requires
        a.is_prefix_of(b),
        b.is_prefix_of(c),
    ensures
        a.is_prefix_of(c),
{
    assert(a =~= c.subrange(0, a.len() as int));
}

} // verus!
// Fixed-shape statement emitters.

verus! {

/// `cpix`: draw a pixel at constant coordinates.
fn gen_cpix(
    code: &Vec<Token>,
    i: usize,
    m: &Vec<u8>,
    out: &mut Vec<u8>,
    labels: &mut ByteTable,
    routines: &mut RoutineTable,
    header: &mut HeaderState,
    floats: &FloatEval,
    Ghost(fuel): Ghost<nat>,
) -> (r: Result<usize, CompileError>)
    requires
        i < code@.len(),
        toks_view(code@)[i as int] == Tok::Ident(m@),
        spec_mnemonic(m@) == Mn::Cpix,
        st_wf(st_of(old(out)@, old(labels)@, old(routines)@, *old(header))),
    ensures
        gen_step_post(
            code@,
            i,
            r,
            old(out)@,
            old(labels)@,
            old(routines)@,
            *old(header),
            final(out)@,
            final(labels)@,
            final(routines)@,
            *final(header),
            floats@,
            fuel,
        ),
{
    let ghost model = toks_view(code@);
    let ghost st = st_of(out@, labels@, routines@, *header);
    let n = code.len();
    proof {
        lemma_toks_view(code@);
        assert(model.skip(i as int)[0] == model[i as int]);
        assert(model.skip(i as int).len() == n - i);
    }
    if n - i < 4 {
        return Err(CompileError::BadOperand(copy_bytes(m)));
    }
    proof {
        assert(model.skip(i as int)[1] == model[i + 1]);
        assert(model.skip(i as int)[2] == model[i + 2]);
        assert(model.skip(i as int)[3] == model[i + 3]);
    }
    match (&code[i + 1], &code[i + 2], &code[i + 3]) {
        (Token::Byte(x), Token::Byte(y), Token::Byte(col)) => {
            out.push(0x01);
            out.push(*x);
            out.push(*y);
            out.push(*col);
            proof {
                let bytes = seq![0x01u8, model[i + 1]->Byte_0, model[i + 2]->Byte_0, model[i
                    + 3]->Byte_0];
                assert(out@ =~= st.out + bytes);
                assert(model.skip(i as int).skip(4) =~= model.skip(i + 4));
                assert(st_of(out@, labels@, routines@, *header) == emit(st, bytes));
                assert(st.out.is_prefix_of(out@));
            }
            Ok(i + 4)
        },
        _ => Err(CompileError::BadOperand(copy_bytes(m))),
    }
}

} // verus!
// More fixed-shape emitters.

verus! {


/// ``pix`: draw a pixel at variable coordinates.`
fn gen_pix(
    code: &Vec<Token>,
    i: usize,
    m: &Vec<u8>,
    out: &mut Vec<u8>,
    labels: &mut ByteTable,
    routines: &mut RoutineTable,
    header: &mut HeaderState,
    floats: &FloatEval,
    Ghost(fuel): Ghost<nat>,
) -> (r: Result<usize, CompileError>)
    requires
        i < code@.len(),
        toks_view(code@)[i as int] == Tok::Ident(m@),
        spec_mnemonic(m@) == Mn::Pix,
        st_wf(st_of(old(out)@, old(labels)@, old(routines)@, *old(header))),
    ensures
        gen_step_post(
            code@,
            i,
            r,
            old(out)@,
            old(labels)@,
            old(routines)@,
            *old(header),
            final(out)@,
            final(labels)@,
            final(routines)@,
            *final(header),
            floats@,
            fuel,
        ),
{
    let ghost model = toks_view(code@);
    let ghost st = st_of(out@, labels@, routines@, *header);
    let n = code.len();
    proof {
        lemma_toks_view(code@);
        assert(model.skip(i as int)[0] == model[i as int]);
        assert(model.skip(i as int).len() == n - i);
    }
    if n - i < 4 {
        return Err(CompileError::BadOperand(copy_bytes(m)));
    }
    proof {
        assert(model.skip(i as int)[1] == model[i + 1]);
        assert(model.skip(i as int)[2] == model[i + 2]);
        assert(model.skip(i as int)[3] == model[i + 3]);
    }
    match (&code[i + 1], &code[i + 2], &code[i + 3]) {
        (Token::Var(a0), Token::Var(a1), Token::Byte(a2)) => {
            out.push(0x02);
            out.push(*a0);
            out.push(*a1);
            out.push(*a2);
            proof {
                let bytes = seq![0x02u8, model[i + 1]->Var_0, model[i + 2]->Var_0, model[i + 3]->Byte_0];
                assert(out@ =~= st.out + bytes);
                assert(model.skip(i as int).skip(4) =~= model.skip(i + 4));
                assert(st_of(out@, labels@, routines@, *header) == emit(st, bytes));
                assert(st.out.is_prefix_of(out@));
            }
            Ok(i + 4)
        },
        _ => Err(CompileError::BadOperand(copy_bytes(m))),
    }
}


/// ``gt`: compare two variables, boolean result to a third.`
fn gen_gt(
    code: &Vec<Token>,
    i: usize,
    m: &Vec<u8>,
    out: &mut Vec<u8>,
    labels: &mut ByteTable,
    routines: &mut RoutineTable,
    header: &mut HeaderState,
    floats: &FloatEval,
    Ghost(fuel): Ghost<nat>,
) -> (r: Result<usize, CompileError>)
    requires
        i < code@.len(),
        toks_view(code@)[i as int] == Tok::Ident(m@),
        spec_mnemonic(m@) == Mn::Gt,
        st_wf(st_of(old(out)@, old(labels)@, old(routines)@, *old(header))),
    ensures
        gen_step_post(
            code@,
            i,
            r,
            old(out)@,
            old(labels)@,
            old(routines)@,
            *old(header),
            final(out)@,
            final(labels)@,
            final(routines)@,
            *final(header),
            floats@,
            fuel,
        ),
{
    let ghost model = toks_view(code@);
    let ghost st = st_of(out@, labels@, routines@, *header);
    let n = code.len();
    proof {
        lemma_toks_view(code@);
        assert(model.skip(i as int)[0] == model[i as int]);
        assert(model.skip(i as int).len() == n - i);
    }
    if n - i < 4 {
        return Err(CompileError::BadOperand(copy_bytes(m)));
    }
    proof {
        assert(model.skip(i as int)[1] == model[i + 1]);
        assert(model.skip(i as int)[2] == model[i + 2]);
        assert(model.skip(i as int)[3] == model[i + 3]);
    }
    match (&code[i + 1], &code[i + 2], &code[i + 3]) {
        (Token::Var(a0), Token::Var(a1), Token::Var(a2)) => {
            out.push(0xb1);
            out.push(*a0);
            out.push(*a1);
            out.push(*a2);
            proof {
                let bytes = seq![0xb1u8, model[i + 1]->Var_0, model[i + 2]->Var_0, model[i + 3]->Var_0];
                assert(out@ =~= st.out + bytes);
                assert(model.skip(i as int).skip(4) =~= model.skip(i + 4));
                assert(st_of(out@, labels@, routines@, *header) == emit(st, bytes));
                assert(st.out.is_prefix_of(out@));
            }
            Ok(i + 4)
        },
        _ => Err(CompileError::BadOperand(copy_bytes(m))),
    }
}


/// ``lt`: compare two variables, boolean result to a third.`
fn gen_lt(
    code: &Vec<Token>,
    i: usize,
    m: &Vec<u8>,
    out: &mut Vec<u8>,
    labels: &mut ByteTable,
    routines: &mut RoutineTable,
    header: &mut HeaderState,
    floats: &FloatEval,
    Ghost(fuel): Ghost<nat>,
) -> (r: Result<usize, CompileError>)
    requires
        i < code@.len(),
        toks_view(code@)[i as int] == Tok::Ident(m@),
        spec_mnemonic(m@) == Mn::Lt,
        st_wf(st_of(old(out)@, old(labels)@, old(routines)@, *old(header))),
    ensures
        gen_step_post(
            code@,
            i,
            r,
            old(out)@,
            old(labels)@,
            old(routines)@,
            *old(header),
            final(out)@,
            final(labels)@,
            final(routines)@,
            *final(header),
            floats@,
            fuel,
        ),
{
    let ghost model = toks_view(code@);
    let ghost st = st_of(out@, labels@, routines@, *header);
    let n = code.len();
    proof {
        lemma_toks_view(code@);
        assert(model.skip(i as int)[0] == model[i as int]);
        assert(model.skip(i as int).len() == n - i);
    }
    if n - i < 4 {
        return Err(CompileError::BadOperand(copy_bytes(m)));
    }
    proof {
        assert(model.skip(i as int)[1] == model[i + 1]);
        assert(model.skip(i as int)[2] == model[i + 2]);
        assert(model.skip(i as int)[3] == model[i + 3]);
    }
    match (&code[i + 1], &code[i + 2], &code[i + 3]) {
        (Token::Var(a0), Token::Var(a1), Token::Var(a2)) => {
            out.push(0xb2);
            out.push(*a0);
            out.push(*a1);
            out.push(*a2);
            proof {
                let bytes = seq![0xb2u8, model[i + 1]->Var_0, model[i + 2]->Var_0, model[i + 3]->Var_0];
                assert(out@ =~= st.out + bytes);
                assert(model.skip(i as int).skip(4) =~= model.skip(i + 4));
                assert(st_of(out@, labels@, routines@, *header) == emit(st, bytes));
                assert(st.out.is_prefix_of(out@));
            }
            Ok(i + 4)
        },
        _ => Err(CompileError::BadOperand(copy_bytes(m))),
    }
}


/// ``key`: poll a key's state into a variable.`
fn gen_key(
    code: &Vec<Token>,
    i: usize,
    m: &Vec<u8>,
    out: &mut Vec<u8>,
    labels: &mut ByteTable,
    routines: &mut RoutineTable,
    header: &mut HeaderState,
    floats: &FloatEval,
    Ghost(fuel): Ghost<nat>,
) -> (r: Result<usize, CompileError>)
    requires
        i < code@.len(),
        toks_view(code@)[i as int] == Tok::Ident(m@),
        spec_mnemonic(m@) == Mn::Key,
        st_wf(st_of(old(out)@, old(labels)@, old(routines)@, *old(header))),
    ensures
        gen_step_post(
            code@,
            i,
            r,
            old(out)@,
            old(labels)@,
            old(routines)@,
            *old(header),
            final(out)@,
            final(labels)@,
            final(routines)@,
            *final(header),
            floats@,
            fuel,
        ),
{
    let ghost model = toks_view(code@);
    let ghost st = st_of(out@, labels@, routines@, *header);
    let n = code.len();
    proof {
        lemma_toks_view(code@);
        assert(model.skip(i as int)[0] == model[i as int]);
        assert(model.skip(i as int).len() == n - i);
    }
    if n - i < 3 {
        return Err(CompileError::BadOperand(copy_bytes(m)));
    }
    proof {
        assert(model.skip(i as int)[1] == model[i + 1]);
        assert(model.skip(i as int)[2] == model[i + 2]);
    }
    match (&code[i + 1], &code[i + 2]) {
        (Token::Byte(a0), Token::Var(a1)) => {
            out.push(0xd0);
            out.push(*a0);
            out.push(*a1);
            proof {
                let bytes = seq![0xd0u8, model[i + 1]->Byte_0, model[i + 2]->Var_0];
                assert(out@ =~= st.out + bytes);
                assert(model.skip(i as int).skip(3) =~= model.skip(i + 3));
                assert(st_of(out@, labels@, routines@, *header) == emit(st, bytes));
                assert(st.out.is_prefix_of(out@));
            }
            Ok(i + 3)
        },
        _ => Err(CompileError::BadOperand(copy_bytes(m))),
    }
}


/// ``cls`: clear the screen to a colour.`
fn gen_cls(
    code: &Vec<Token>,
    i: usize,
    m: &Vec<u8>,
    out: &mut Vec<u8>,
    labels: &mut ByteTable,
    routines: &mut RoutineTable,
    header: &mut HeaderState,
    floats: &FloatEval,
    Ghost(fuel): Ghost<nat>,
) -> (r: Result<usize, CompileError>)
    requires
        i < code@.len(),
        toks_view(code@)[i as int] == Tok::Ident(m@),
        spec_mnemonic(m@) == Mn::Cls,
        st_wf(st_of(old(out)@, old(labels)@, old(routines)@, *old(header))),
    ensures
        gen_step_post(
            code@,
            i,
            r,
            old(out)@,
            old(labels)@,
            old(routines)@,
            *old(header),
            final(out)@,
            final(labels)@,
            final(routines)@,
            *final(header),
            floats@,
            fuel,
        ),
{
    let ghost model = toks_view(code@);
    let ghost st = st_of(out@, labels@, routines@, *header);
    let n = code.len();
    proof {
        lemma_toks_view(code@);
        assert(model.skip(i as int)[0] == model[i as int]);
        assert(model.skip(i as int).len() == n - i);
    }
    if n - i < 2 {
        return Err(CompileError::BadOperand(copy_bytes(m)));
    }
    proof {
        assert(model.skip(i as int)[1] == model[i + 1]);
    }
    match &code[i + 1] {
        Token::Byte(a0) => {
            out.push(0xfc);
            out.push(*a0);
            proof {
                let bytes = seq![0xfcu8, model[i + 1]->Byte_0];
                assert(out@ =~= st.out + bytes);
                assert(model.skip(i as int).skip(2) =~= model.skip(i + 2));
                assert(st_of(out@, labels@, routines@, *header) == emit(st, bytes));
                assert(st.out.is_prefix_of(out@));
            }
            Ok(i + 2)
        },
        _ => Err(CompileError::BadOperand(copy_bytes(m))),
    }
}


/// ``noop`: one no-op byte.`
fn gen_noop(
    code: &Vec<Token>,
    i: usize,
    m: &Vec<u8>,
    out: &mut Vec<u8>,
    labels: &mut ByteTable,
    routines: &mut RoutineTable,
    header: &mut HeaderState,
    floats: &FloatEval,
    Ghost(fuel): Ghost<nat>,
) -> (r: Result<usize, CompileError>)
    requires
        i < code@.len(),
        toks_view(code@)[i as int] == Tok::Ident(m@),
        spec_mnemonic(m@) == Mn::Noop,
        st_wf(st_of(old(out)@, old(labels)@, old(routines)@, *old(header))),
    ensures
        gen_step_post(
            code@,
            i,
            r,
            old(out)@,
            old(labels)@,
            old(routines)@,
            *old(header),
            final(out)@,
            final(labels)@,
            final(routines)@,
            *final(header),
            floats@,
            fuel,
        ),
{
    let ghost model = toks_view(code@);
    let ghost st = st_of(out@, labels@, routines@, *header);
    let n = code.len();
    proof {
        lemma_toks_view(code@);
        assert(model.skip(i as int)[0] == model[i as int]);
        assert(model.skip(i as int).len() == n - i);
    }
    out.push(0x00);
    proof {
        let bytes = seq![0x00u8];
        assert(out@ =~= st.out + bytes);
        assert(model.skip(i as int).skip(1) =~= model.skip(i + 1));
        assert(st_of(out@, labels@, routines@, *header) == emit(st, bytes));
        assert(st.out.is_prefix_of(out@));
    }
    Ok(i + 1)
}


/// ``flsh`: present the framebuffer.`
fn gen_flsh(
    code: &Vec<Token>,
    i: usize,
    m: &Vec<u8>,
    out: &mut Vec<u8>,
    labels: &mut ByteTable,
    routines: &mut RoutineTable,
    header: &mut HeaderState,
    floats: &FloatEval,
    Ghost(fuel): Ghost<nat>,
) -> (r: Result<usize, CompileError>)
    requires
        i < code@.len(),
        toks_view(code@)[i as int] == Tok::Ident(m@),
        spec_mnemonic(m@) == Mn::Flsh,
        st_wf(st_of(old(out)@, old(labels)@, old(routines)@, *old(header))),
    ensures
        gen_step_post(
            code@,
            i,
            r,
            old(out)@,
            old(labels)@,
            old(routines)@,
            *old(header),
            final(out)@,
            final(labels)@,
            final(routines)@,
            *final(header),
            floats@,
            fuel,
        ),
{
    let ghost model = toks_view(code@);
    let ghost st = st_of(out@, labels@, routines@, *header);
    let n = code.len();
    proof {
        lemma_toks_view(code@);
        assert(model.skip(i as int)[0] == model[i as int]);
        assert(model.skip(i as int).len() == n - i);
    }
    out.push(0xfb);
    proof {
        let bytes = seq![0xfbu8];
        assert(out@ =~= st.out + bytes);
        assert(model.skip(i as int).skip(1) =~= model.skip(i + 1));
        assert(st_of(out@, labels@, routines@, *header) == emit(st, bytes));
        assert(st.out.is_prefix_of(out@));
    }
    Ok(i + 1)
}

} // verus!
// Header flags, sprites, fixed jumps.

verus! {

/// `keeploop` / `keepopen`: one header flag byte, counted in the header
/// size.
fn gen_keepflag(
    code: &Vec<Token>,
    i: usize,
    m: &Vec<u8>,
    out: &mut Vec<u8>,
    labels: &mut ByteTable,
    routines: &mut RoutineTable,
    header: &mut HeaderState,
    floats: &FloatEval,
    Ghost(fuel): Ghost<nat>,
) -> (r: Result<usize, CompileError>)
    requires
        i < code@.len(),
        toks_view(code@)[i as int] == Tok::Ident(m@),
        spec_mnemonic(m@) == Mn::KeepLoop || spec_mnemonic(m@) == Mn::KeepOpen,
        st_wf(st_of(old(out)@, old(labels)@, old(routines)@, *old(header))),
    ensures
        gen_step_post(
            code@,
            i,
            r,
            old(out)@,
            old(labels)@,
            old(routines)@,
            *old(header),
            final(out)@,
            final(labels)@,
            final(routines)@,
            *final(header),
            floats@,
            fuel,
        ),
{
    let ghost model = toks_view(code@);
    let ghost st = st_of(out@, labels@, routines@, *header);
    let n = code.len();
    proof {
        lemma_toks_view(code@);
        assert(model.skip(i as int)[0] == model[i as int]);
        assert(i < n);
    }
    let flag: u8 = if m.len() == 8 && m[4] == ('l' as u8) {
        0x02
    } else {
        0x04
    };
    proof {
        if spec_mnemonic(m@) == Mn::KeepLoop {
            assert(flag == 0x02);
        } else {
            assert(flag == 0x04);
        }
    }
    out.push(flag);
    let _n2 = out.len();
    header.size = header.size + 1;
    proof {
        let bytes = seq![flag];
        assert(out@ =~= st.out + bytes);
        assert(model.skip(i as int).skip(1) =~= model.skip(i + 1));
        assert(st_of(out@, labels@, routines@, *header) == St {
            out: st.out + bytes,
            hsize: st.hsize + 1,
            ..st
        });
        assert(st.out.is_prefix_of(out@));
    }
    Ok(i + 1)
}

/// `endhead`: the header's terminating zero byte, not counted.
fn gen_endhead(
    code: &Vec<Token>,
    i: usize,
    m: &Vec<u8>,
    out: &mut Vec<u8>,
    labels: &mut ByteTable,
    routines: &mut RoutineTable,
    header: &mut HeaderState,
    floats: &FloatEval,
    Ghost(fuel): Ghost<nat>,
) -> (r: Result<usize, CompileError>)
    requires
        i < code@.len(),
        toks_view(code@)[i as int] == Tok::Ident(m@),
        spec_mnemonic(m@) == Mn::EndHead,
        st_wf(st_of(old(out)@, old(labels)@, old(routines)@, *old(header))),
    ensures
        gen_step_post(
            code@,
            i,
            r,
            old(out)@,
            old(labels)@,
            old(routines)@,
            *old(header),
            final(out)@,
            final(labels)@,
            final(routines)@,
            *final(header),
            floats@,
            fuel,
        ),
{
    let ghost model = toks_view(code@);
    let ghost st = st_of(out@, labels@, routines@, *header);
    let n = code.len();
    proof {
        lemma_toks_view(code@);
        assert(model.skip(i as int)[0] == model[i as int]);
        assert(i < n);
    }
    out.push(0x00);
    header.closed = true;
    proof {
        let bytes = seq![0x00u8];
        assert(out@ =~= st.out + bytes);
        assert(model.skip(i as int).skip(1) =~= model.skip(i + 1));
        assert(st_of(out@, labels@, routines@, *header) == St {
            out: st.out + bytes,
            hclosed: true,
            ..st
        });
        assert(st.out.is_prefix_of(out@));
    }
    Ok(i + 1)
}

/// `spr`: blit a sprite: its eight pointer bytes, then the coordinates.
fn gen_spr(
    code: &Vec<Token>,
    i: usize,
    m: &Vec<u8>,
    out: &mut Vec<u8>,
    labels: &mut ByteTable,
    routines: &mut RoutineTable,
    header: &mut HeaderState,
    floats: &FloatEval,
    Ghost(fuel): Ghost<nat>,
) -> (r: Result<usize, CompileError>)
    requires
        i < code@.len(),
        toks_view(code@)[i as int] == Tok::Ident(m@),
        spec_mnemonic(m@) == Mn::Spr,
        st_wf(st_of(old(out)@, old(labels)@, old(routines)@, *old(header))),
    ensures
        gen_step_post(
            code@,
            i,
            r,
            old(out)@,
            old(labels)@,
            old(routines)@,
            *old(header),
            final(out)@,
            final(labels)@,
            final(routines)@,
            *final(header),
            floats@,
            fuel,
        ),
{
    let ghost model = toks_view(code@);
    let ghost st = st_of(out@, labels@, routines@, *header);
    let n = code.len();
    proof {
        lemma_toks_view(code@);
        assert(model.skip(i as int)[0] == model[i as int]);
        assert(model.skip(i as int).len() == n - i);
    }
    if n - i < 4 {
        return Err(CompileError::BadOperand(copy_bytes(m)));
    }
    proof {
        assert(model.skip(i as int)[1] == model[i + 1]);
        assert(model.skip(i as int)[2] == model[i + 2]);
        assert(model.skip(i as int)[3] == model[i + 3]);
    }
    match (&code[i + 1], &code[i + 2], &code[i + 3]) {
        (Token::Array(arr), Token::Var(x), Token::Var(y)) => {
            out.push(0x03);
            out.push(arr[0]);
            out.push(arr[1]);
            out.push(arr[2]);
            out.push(arr[3]);
            out.push(arr[4]);
            out.push(arr[5]);
            out.push(arr[6]);
            out.push(arr[7]);
            out.push(*x);
            out.push(*y);
            proof {
                let bytes = seq![0x03u8] + model[i + 1]->Array_0 + seq![
                    model[i + 2]->Var_0,
                    model[i + 3]->Var_0,
                ];
                assert(out@ =~= st.out + bytes);
                assert(model.skip(i as int).skip(4) =~= model.skip(i + 4));
                assert(st_of(out@, labels@, routines@, *header) == emit(st, bytes));
                assert(st.out.is_prefix_of(out@));
            }
            Ok(i + 4)
        },
        _ => Err(CompileError::BadOperand(copy_bytes(m))),
    }
}

/// `bjmp`: an unconditional jump to a fixed byte address.
fn gen_bjmp(
    code: &Vec<Token>,
    i: usize,
    m: &Vec<u8>,
    out: &mut Vec<u8>,
    labels: &mut ByteTable,
    routines: &mut RoutineTable,
    header: &mut HeaderState,
    floats: &FloatEval,
    Ghost(fuel): Ghost<nat>,
) -> (r: Result<usize, CompileError>)
    requires
        i < code@.len(),
        toks_view(code@)[i as int] == Tok::Ident(m@),
        spec_mnemonic(m@) == Mn::BJmp,
        st_wf(st_of(old(out)@, old(labels)@, old(routines)@, *old(header))),
    ensures
        gen_step_post(
            code@,
            i,
            r,
            old(out)@,
            old(labels)@,
            old(routines)@,
            *old(header),
            final(out)@,
            final(labels)@,
            final(routines)@,
            *final(header),
            floats@,
            fuel,
        ),
{
    let ghost model = toks_view(code@);
    let ghost st = st_of(out@, labels@, routines@, *header);
    let n = code.len();
    proof {
        lemma_toks_view(code@);
        assert(model.skip(i as int)[0] == model[i as int]);
        assert(model.skip(i as int).len() == n - i);
    }
    if n - i < 2 {
        return Err(CompileError::BadOperand(copy_bytes(m)));
    }
    proof {
        assert(model.skip(i as int)[1] == model[i + 1]);
    }
    match &code[i + 1] {
        Token::Num(tgt) => {
            out.push(0xe3);
            let le = vstd::bytes::u64_to_le_bytes(*tgt as u64);
            out.extend_from_slice(le.as_slice());
            proof {
                let bytes = seq![0xe3u8] + le8i(model[i + 1]->Num_0);
                assert(out@ =~= st.out + bytes);
                assert(model.skip(i as int).skip(2) =~= model.skip(i + 2));
                assert(st_of(out@, labels@, routines@, *header) == emit(st, bytes));
                assert(st.out.is_prefix_of(out@));
            }
            Ok(i + 2)
        },
        _ => Err(CompileError::BadOperand(copy_bytes(m))),
    }
}

} // verus!
// Variable assignment and constant folding.

verus! {

/// `var` / `let`: a typed payload assigned to a variable slot.
#[verifier::rlimit(60)]
fn gen_assign(
    code: &Vec<Token>,
    i: usize,
    m: &Vec<u8>,
    out: &mut Vec<u8>,
    labels: &mut ByteTable,
    routines: &mut RoutineTable,
    header: &mut HeaderState,
    floats: &FloatEval,
    Ghost(fuel): Ghost<nat>,
) -> (r: Result<usize, CompileError>)
    requires
        i < code@.len(),
        toks_view(code@)[i as int] == Tok::Ident(m@),
        spec_mnemonic(m@) == Mn::VarDecl || spec_mnemonic(m@) == Mn::LetDecl,
        st_wf(st_of(old(out)@, old(labels)@, old(routines)@, *old(header))),
    ensures
        gen_step_post(
            code@,
            i,
            r,
            old(out)@,
            old(labels)@,
            old(routines)@,
            *old(header),
            final(out)@,
            final(labels)@,
            final(routines)@,
            *final(header),
            floats@,
            fuel,
        ),
{
    let ghost model = toks_view(code@);
    let ghost st = st_of(out@, labels@, routines@, *header);
    let n = code.len();
    proof {
        lemma_toks_view(code@);
        assert(model.skip(i as int)[0] == model[i as int]);
        assert(model.skip(i as int).len() == n - i);
    }
    let op: u8 = if m.len() == 3 && m[0] == ('v' as u8) {
        0xa1
    } else {
        0xa2
    };
    proof {
        if spec_mnemonic(m@) == Mn::VarDecl {
            assert(op == 0xa1);
        } else {
            assert(op == 0xa2);
        }
    }
    if n - i < 3 {
        return Err(CompileError::BadOperand(copy_bytes(m)));
    }
    proof {
        assert(model.skip(i as int)[1] == model[i + 1]);
        assert(model.skip(i as int)[2] == model[i + 2]);
    }
    let addr: u8 = match &code[i + 1] {
        Token::Var(a) => *a,
        _ => {
            return Err(CompileError::BadOperand(copy_bytes(m)));
        },
    };
    match &code[i + 2] {
        Token::Str(sv) => {
            out.push(op);
            out.push(0xab);
            out.push(sv[0]);
            out.push(sv[1]);
            out.push(sv[2]);
            out.push(sv[3]);
            out.push(sv[4]);
            out.push(sv[5]);
            out.push(sv[6]);
            out.push(sv[7]);
            out.push(addr);
            proof {
                let bytes = seq![op, 0xabu8] + model[i + 2]->Str_0 + seq![model[i + 1]->Var_0];
                assert(out@ =~= st.out + bytes);
                assert(model.skip(i as int).skip(3) =~= model.skip(i + 3));
                assert(st_of(out@, labels@, routines@, *header) == emit(st, bytes));
                assert(st.out.is_prefix_of(out@));
            }
            Ok(i + 3)
        },
        Token::Num(nv) => {
            out.push(op);
            out.push(0xe0);
            let le = vstd::bytes::u64_to_le_bytes(*nv as u64);
            out.extend_from_slice(le.as_slice());
            out.push(addr);
            proof {
                let bytes = seq![op, 0xe0u8] + le8i(model[i + 2]->Num_0) + seq![
                    model[i + 1]->Var_0,
                ];
                assert(out@ =~= st.out + bytes);
                assert(model.skip(i as int).skip(3) =~= model.skip(i + 3));
                assert(st_of(out@, labels@, routines@, *header) == emit(st, bytes));
                assert(st.out.is_prefix_of(out@));
            }
            Ok(i + 3)
        },
        Token::Float(txt) => {
            match floats.numeral_bits(txt) {
                Some(bits) => {
                    out.push(op);
                    out.push(0xf0);
                    let le = vstd::bytes::u64_to_le_bytes(bits);
                    out.extend_from_slice(le.as_slice());
                    out.push(addr);
                    proof {
                        let bytes = seq![op, 0xf0u8] + le8(
                            floats@.nums[model[i + 2]->Float_0],
                        ) + seq![model[i + 1]->Var_0];
                        assert(out@ =~= st.out + bytes);
                        assert(model.skip(i as int).skip(3) =~= model.skip(i + 3));
                        assert(st_of(out@, labels@, routines@, *header) == emit(st, bytes));
                        assert(st.out.is_prefix_of(out@));
                    }
                    Ok(i + 3)
                },
                None => Err(CompileError::UnresolvedFloat),
            }
        },
        Token::Array(av) => {
            out.push(op);
            out.push(0x8a);
            out.push(av[0]);
            out.push(av[1]);
            out.push(av[2]);
            out.push(av[3]);
            out.push(av[4]);
            out.push(av[5]);
            out.push(av[6]);
            out.push(av[7]);
            out.push(addr);
            proof {
                let bytes = seq![op, 0x8au8] + model[i + 2]->Array_0 + seq![model[i + 1]->Var_0];
                assert(out@ =~= st.out + bytes);
                assert(model.skip(i as int).skip(3) =~= model.skip(i + 3));
                assert(st_of(out@, labels@, routines@, *header) == emit(st, bytes));
                assert(st.out.is_prefix_of(out@));
            }
            Ok(i + 3)
        },
        _ => Err(CompileError::BadOperand(copy_bytes(m))),
    }
}

/// `div` / `sub` / `add` / `mul`: two literal integers fold now into a
/// `var`-style assignment; two variables emit the runtime operation.
fn gen_int_arith(
    code: &Vec<Token>,
    i: usize,
    m: &Vec<u8>,
    mn: Mn,
    out: &mut Vec<u8>,
    labels: &mut ByteTable,
    routines: &mut RoutineTable,
    header: &mut HeaderState,
    floats: &FloatEval,
    Ghost(fuel): Ghost<nat>,
) -> (r: Result<usize, CompileError>)
    requires
        i < code@.len(),
        toks_view(code@)[i as int] == Tok::Ident(m@),
        spec_mnemonic(m@) == mn,
        mn == Mn::IntDiv || mn == Mn::IntSub || mn == Mn::IntAdd || mn == Mn::IntMul,
        st_wf(st_of(old(out)@, old(labels)@, old(routines)@, *old(header))),
    ensures
        gen_step_post(
            code@,
            i,
            r,
            old(out)@,
            old(labels)@,
            old(routines)@,
            *old(header),
            final(out)@,
            final(labels)@,
            final(routines)@,
            *final(header),
            floats@,
            fuel,
        ),
{
    let ghost model = toks_view(code@);
    let ghost st = st_of(out@, labels@, routines@, *header);
    let n = code.len();
    proof {
        lemma_toks_view(code@);
        assert(model.skip(i as int)[0] == model[i as int]);
        assert(model.skip(i as int).len() == n - i);
    }
    if n - i < 4 {
        return Err(CompileError::BadOperand(copy_bytes(m)));
    }
    proof {
        assert(model.skip(i as int)[1] == model[i + 1]);
        assert(model.skip(i as int)[2] == model[i + 2]);
        assert(model.skip(i as int)[3] == model[i + 3]);
    }
    match (&code[i + 1], &code[i + 2], &code[i + 3]) {
        (Token::Num(a), Token::Num(b), Token::Var(d)) => {
            if mn == Mn::IntDiv && *b == 0 {
                return Err(CompileError::FoldDivideByZero);
            }
            let folded: Option<i64> = if mn == Mn::IntAdd {
                a.checked_add(*b)
            } else if mn == Mn::IntSub {
                a.checked_sub(*b)
            } else if mn == Mn::IntMul {
                a.checked_mul(*b)
            } else {
                a.checked_div(*b)
            };
            match folded {
                None => {
                    proof {
                        assert(fold_int(mn, *a, *b) < i64::MIN || fold_int(mn, *a, *b)
                            > i64::MAX);
                    }
                    Err(CompileError::FoldOverflow)
                },
                Some(v) => {
                    proof {
                        assert(v as int == fold_int(mn, *a, *b));
                    }
                    out.push(0xa1);
                    out.push(0xe0);
                    let le = vstd::bytes::u64_to_le_bytes(v as u64);
                    out.extend_from_slice(le.as_slice());
                    out.push(*d);
                    proof {
                        let bytes = seq![0xa1u8, 0xe0u8] + le8i(
                            fold_int(mn, model[i + 1]->Num_0, model[i + 2]->Num_0) as i64,
                        ) + seq![model[i + 3]->Var_0];
                        assert(out@ =~= st.out + bytes);
                        assert(model.skip(i as int).skip(4) =~= model.skip(i + 4));
                        assert(st_of(out@, labels@, routines@, *header) == emit(st, bytes));
                        assert(st.out.is_prefix_of(out@));
                    }
                    Ok(i + 4)
                },
            }
        },
        (Token::Var(a), Token::Var(b), Token::Var(d)) => {
            let opc: u8 = if mn == Mn::IntDiv {
                0xf4
            } else if mn == Mn::IntSub {
                0xf5
            } else if mn == Mn::IntAdd {
                0xf6
            } else {
                0xf7
            };
            proof {
                assert(opc == int_rt_opcode(mn));
            }
            out.push(opc);
            out.push(*a);
            out.push(*b);
            out.push(*d);
            proof {
                let bytes = seq![
                    int_rt_opcode(mn),
                    model[i + 1]->Var_0,
                    model[i + 2]->Var_0,
                    model[i + 3]->Var_0,
                ];
                assert(out@ =~= st.out + bytes);
                assert(model.skip(i as int).skip(4) =~= model.skip(i + 4));
                assert(st_of(out@, labels@, routines@, *header) == emit(st, bytes));
                assert(st.out.is_prefix_of(out@));
            }
            Ok(i + 4)
        },
        _ => Err(CompileError::BadOperand(copy_bytes(m))),
    }
}

/// `fdiv` / `fsub` / `fadd` / `fmul`: two float literals fold through the
/// evaluation table; two variables emit the runtime operation.
fn gen_float_arith(
    code: &Vec<Token>,
    i: usize,
    m: &Vec<u8>,
    mn: Mn,
    out: &mut Vec<u8>,
    labels: &mut ByteTable,
    routines: &mut RoutineTable,
    header: &mut HeaderState,
    floats: &FloatEval,
    Ghost(fuel): Ghost<nat>,
) -> (r: Result<usize, CompileError>)
    requires
        i < code@.len(),
        toks_view(code@)[i as int] == Tok::Ident(m@),
        spec_mnemonic(m@) == mn,
        mn == Mn::FDiv || mn == Mn::FSub || mn == Mn::FAdd || mn == Mn::FMul,
        st_wf(st_of(old(out)@, old(labels)@, old(routines)@, *old(header))),
    ensures
        gen_step_post(
            code@,
            i,
            r,
            old(out)@,
            old(labels)@,
            old(routines)@,
            *old(header),
            final(out)@,
            final(labels)@,
            final(routines)@,
            *final(header),
            floats@,
            fuel,
        ),
{
    let ghost model = toks_view(code@);
    let ghost st = st_of(out@, labels@, routines@, *header);
    let n = code.len();
    proof {
        lemma_toks_view(code@);
        assert(model.skip(i as int)[0] == model[i as int]);
        assert(model.skip(i as int).len() == n - i);
    }
    if n - i < 4 {
        return Err(CompileError::BadOperand(copy_bytes(m)));
    }
    proof {
        assert(model.skip(i as int)[1] == model[i + 1]);
        assert(model.skip(i as int)[2] == model[i + 2]);
        assert(model.skip(i as int)[3] == model[i + 3]);
    }
    match (&code[i + 1], &code[i + 2], &code[i + 3]) {
        (Token::Float(la), Token::Float(lb), Token::Var(d)) => {
            let op: FloatOp = if mn == Mn::FDiv {
                FloatOp::Div
            } else if mn == Mn::FSub {
                FloatOp::Sub
            } else if mn == Mn::FAdd {
                FloatOp::Add
            } else {
                FloatOp::Mul
            };
            proof {
                assert(op == float_op_of(mn));
            }
            match floats.fold_bits(op, la, lb) {
                Some(bits) => {
                    out.push(0xa1);
                    out.push(0xf0);
                    let le = vstd::bytes::u64_to_le_bytes(bits);
                    out.extend_from_slice(le.as_slice());
                    out.push(*d);
                    proof {
                        let key = (float_op_of(mn), model[i + 1]->Float_0, model[i + 2]->Float_0);
                        let bytes = seq![0xa1u8, 0xf0u8] + le8(floats@.folds[key]) + seq![
                            model[i + 3]->Var_0,
                        ];
                        assert(out@ =~= st.out + bytes);
                        assert(model.skip(i as int).skip(4) =~= model.skip(i + 4));
                        assert(st_of(out@, labels@, routines@, *header) == emit(st, bytes));
                        assert(st.out.is_prefix_of(out@));
                    }
                    Ok(i + 4)
                },
                None => Err(CompileError::UnresolvedFloat),
            }
        },
        (Token::Var(a), Token::Var(b), Token::Var(d)) => {
            let opc: u8 = if mn == Mn::FDiv {
                0xf0
            } else if mn == Mn::FSub {
                0xf1
            } else if mn == Mn::FAdd {
                0xf2
            } else {
                0xf3
            };
            proof {
                assert(opc == float_rt_opcode(mn));
            }
            out.push(opc);
            out.push(*a);
            out.push(*b);
            out.push(*d);
            proof {
                let bytes = seq![
                    float_rt_opcode(mn),
                    model[i + 1]->Var_0,
                    model[i + 2]->Var_0,
                    model[i + 3]->Var_0,
                ];
                assert(out@ =~= st.out + bytes);
                assert(model.skip(i as int).skip(4) =~= model.skip(i + 4));
                assert(st_of(out@, labels@, routines@, *header) == emit(st, bytes));
                assert(st.out.is_prefix_of(out@));
            }
            Ok(i + 4)
        },
        _ => Err(CompileError::BadOperand(copy_bytes(m))),
    }
}

} // verus!
// Jumps and label resolution.

verus! {

/// `fjmp` / `tjmp`: a conditional jump to an already-declared label.
fn gen_cond_jump(
    code: &Vec<Token>,
    i: usize,
    m: &Vec<u8>,
    mn: Mn,
    out: &mut Vec<u8>,
    labels: &mut ByteTable,
    routines: &mut RoutineTable,
    header: &mut HeaderState,
    floats: &FloatEval,
    Ghost(fuel): Ghost<nat>,
) -> (r: Result<usize, CompileError>)
    requires
        i < code@.len(),
        toks_view(code@)[i as int] == Tok::Ident(m@),
        spec_mnemonic(m@) == mn,
        mn == Mn::FJmp || mn == Mn::TJmp,
        st_wf(st_of(old(out)@, old(labels)@, old(routines)@, *old(header))),
    ensures
        gen_step_post(
            code@,
            i,
            r,
            old(out)@,
            old(labels)@,
            old(routines)@,
            *old(header),
            final(out)@,
            final(labels)@,
            final(routines)@,
            *final(header),
            floats@,
            fuel,
        ),
{
    let ghost model = toks_view(code@);
    let ghost st = st_of(out@, labels@, routines@, *header);
    let n = code.len();
    proof {
        lemma_toks_view(code@);
        assert(model.skip(i as int)[0] == model[i as int]);
        assert(model.skip(i as int).len() == n - i);
    }
    if n - i < 3 {
        return Err(CompileError::BadOperand(copy_bytes(m)));
    }
    proof {
        assert(model.skip(i as int)[1] == model[i + 1]);
        assert(model.skip(i as int)[2] == model[i + 2]);
    }
    let cond: u8 = match &code[i + 1] {
        Token::Var(a) => *a,
        _ => {
            return Err(CompileError::BadOperand(copy_bytes(m)));
        },
    };
    let namev: &Vec<u8> = match &code[i + 2] {
        Token::Ident(nm) => nm,
        Token::Label(nm) => nm,
        _ => {
            return Err(CompileError::BadOperand(copy_bytes(m)));
        },
    };
    proof {
        assert(jump_target(model[i + 2]) == Some(namev@));
    }
    match labels.get(namev) {
        Some(off) => {
            let opc: u8 = if mn == Mn::FJmp {
                0xe2
            } else {
                0xe1
            };
            out.push(opc);
            out.push(cond);
            let le = vstd::bytes::u64_to_le_bytes(off);
            out.extend_from_slice(le.as_slice());
            proof {
                let bytes = seq![
                    if mn == Mn::FJmp {
                        0xe2u8
                    } else {
                        0xe1u8
                    },
                    model[i + 1]->Var_0,
                ] + le8(st.labels[namev@]);
                assert(out@ =~= st.out + bytes);
                assert(model.skip(i as int).skip(3) =~= model.skip(i + 3));
                assert(st_of(out@, labels@, routines@, *header) == emit(st, bytes));
                assert(st.out.is_prefix_of(out@));
            }
            Ok(i + 3)
        },
        None => Err(CompileError::UnknownLabel(copy_bytes(namev))),
    }
}

/// `jmp`: an unconditional jump to an already-declared label.
fn gen_jmp(
    code: &Vec<Token>,
    i: usize,
    m: &Vec<u8>,
    out: &mut Vec<u8>,
    labels: &mut ByteTable,
    routines: &mut RoutineTable,
    header: &mut HeaderState,
    floats: &FloatEval,
    Ghost(fuel): Ghost<nat>,
) -> (r: Result<usize, CompileError>)
    requires
        i < code@.len(),
        toks_view(code@)[i as int] == Tok::Ident(m@),
        spec_mnemonic(m@) == Mn::Jmp,
        st_wf(st_of(old(out)@, old(labels)@, old(routines)@, *old(header))),
    ensures
        gen_step_post(
            code@,
            i,
            r,
            old(out)@,
            old(labels)@,
            old(routines)@,
            *old(header),
            final(out)@,
            final(labels)@,
            final(routines)@,
            *final(header),
            floats@,
            fuel,
        ),
{
    let ghost model = toks_view(code@);
    let ghost st = st_of(out@, labels@, routines@, *header);
    let n = code.len();
    proof {
        lemma_toks_view(code@);
        assert(model.skip(i as int)[0] == model[i as int]);
        assert(model.skip(i as int).len() == n - i);
    }
    if n - i < 2 {
        return Err(CompileError::BadOperand(copy_bytes(m)));
    }
    proof {
        assert(model.skip(i as int)[1] == model[i + 1]);
    }
    let namev: &Vec<u8> = match &code[i + 1] {
        Token::Ident(nm) => nm,
        Token::Label(nm) => nm,
        _ => {
            return Err(CompileError::BadOperand(copy_bytes(m)));
        },
    };
    proof {
        assert(jump_target(model[i + 1]) == Some(namev@));
    }
    match labels.get(namev) {
        Some(off) => {
            out.push(0xe3);
            let le = vstd::bytes::u64_to_le_bytes(off);
            out.extend_from_slice(le.as_slice());
            proof {
                let bytes = seq![0xe3u8] + le8(st.labels[namev@]);
                assert(out@ =~= st.out + bytes);
                assert(model.skip(i as int).skip(2) =~= model.skip(i + 2));
                assert(st_of(out@, labels@, routines@, *header) == emit(st, bytes));
                assert(st.out.is_prefix_of(out@));
            }
            Ok(i + 2)
        },
        None => Err(CompileError::UnknownLabel(copy_bytes(namev))),
    }
}

/// `routine`: register a block body under a name, without emitting.
fn gen_routine(
    code: &Vec<Token>,
    i: usize,
    m: &Vec<u8>,
    out: &mut Vec<u8>,
    labels: &mut ByteTable,
    routines: &mut RoutineTable,
    header: &mut HeaderState,
    floats: &FloatEval,
    Ghost(fuel): Ghost<nat>,
) -> (r: Result<usize, CompileError>)
    requires
        i < code@.len(),
        toks_view(code@)[i as int] == Tok::Ident(m@),
        spec_mnemonic(m@) == Mn::Routine,
        st_wf(st_of(old(out)@, old(labels)@, old(routines)@, *old(header))),
    ensures
        gen_step_post(
            code@,
            i,
            r,
            old(out)@,
            old(labels)@,
            old(routines)@,
            *old(header),
            final(out)@,
            final(labels)@,
            final(routines)@,
            *final(header),
            floats@,
            fuel,
        ),
{
    let ghost model = toks_view(code@);
    let ghost st = st_of(out@, labels@, routines@, *header);
    let n = code.len();
    proof {
        lemma_toks_view(code@);
        assert(model.skip(i as int)[0] == model[i as int]);
        assert(model.skip(i as int).len() == n - i);
    }
    if n - i < 3 {
        return Err(CompileError::BadOperand(copy_bytes(m)));
    }
    proof {
        assert(model.skip(i as int)[1] == model[i + 1]);
        assert(model.skip(i as int)[2] == model[i + 2]);
    }
    match (&code[i + 1], &code[i + 2]) {
        (Token::Ident(namev), Token::Block(body)) => {
            routines.insert(copy_bytes(namev), copy_tokens(body));
            proof {
                assert(model.skip(i as int).skip(3) =~= model.skip(i + 3));
                assert(st_of(out@, labels@, routines@, *header) == St {
                    routines: st.routines.insert(model[i + 1]->Ident_0, model[i + 2]->Block_0),
                    ..st
                });
                assert(st.out.is_prefix_of(out@));
            }
            Ok(i + 3)
        },
        _ => Err(CompileError::BadOperand(copy_bytes(m))),
    }
}

} // verus!
// Byte runs: header filler and raw byte injection.

verus! {

/// A byte run is the unique cut of byte-literal tokens.
proof fn lemma_byte_run_at_is(codev: Seq<Tok>, at: int, mcount: int)
    requires
        0 <= at,
        0 <= mcount,
        at + mcount <= codev.len(),
        forall|q: int| at <= q < at + mcount ==> codev[q] is Byte,
        at + mcount == codev.len() || !(codev[at + mcount] is Byte),
    ensures
        byte_run_at(codev, at) == mcount,
    decreases mcount,
{
    if mcount > 0 {
        lemma_byte_run_at_is(codev, at + 1, mcount - 1);
    }
}

/// `headerbytes` / `bytes`: a run of byte literals copied verbatim; for
/// `headerbytes` each non-zero byte counts toward the header size. The
/// token after the run, if any, is consumed with it.
fn gen_byte_run(
    code: &Vec<Token>,
    i: usize,
    m: &Vec<u8>,
    mn: Mn,
    out: &mut Vec<u8>,
    labels: &mut ByteTable,
    routines: &mut RoutineTable,
    header: &mut HeaderState,
    floats: &FloatEval,
    Ghost(fuel): Ghost<nat>,
) -> (r: Result<usize, CompileError>)
    requires
        i < code@.len(),
        toks_view(code@)[i as int] == Tok::Ident(m@),
        spec_mnemonic(m@) == mn,
        mn == Mn::HeaderBytes || mn == Mn::RawBytes,
        st_wf(st_of(old(out)@, old(labels)@, old(routines)@, *old(header))),
    ensures
        gen_step_post(
            code@,
            i,
            r,
            old(out)@,
            old(labels)@,
            old(routines)@,
            *old(header),
            final(out)@,
            final(labels)@,
            final(routines)@,
            *final(header),
            floats@,
            fuel,
        ),
{
    let ghost model = toks_view(code@);
    let ghost st = st_of(out@, labels@, routines@, *header);
    let n = code.len();
    proof {
        lemma_toks_view(code@);
        assert(model.skip(i as int)[0] == model[i as int]);
        assert(model.skip(i as int).len() == n - i);
    }
    // find the end of the run of byte literals
    let mut jend = i + 1;
    while jend < n && matches!(&code[jend], Token::Byte(_))
        invariant
            i + 1 <= jend <= n,
            n == code@.len(),
            forall|q: int| 0 <= q < code@.len() ==> toks_view(code@)[q] == tok_view(code@[q]),
            toks_view(code@).len() == code@.len(),
            model == toks_view(code@),
            forall|q: int| i + 1 <= q < jend ==> model[q] is Byte,
        decreases n - jend,
    {
        jend = jend + 1;
    }
    let ghost run = (jend - i - 1) as int;
    proof {
        assert(forall|q: int|
            1 <= q < 1 + run ==> (#[trigger] model.skip(i as int)[q]) == model[i + q]);
        if 1 + run < n - i {
            assert(model.skip(i as int)[1 + run] == model[i + 1 + run]);
        }
        lemma_byte_run_at_is(model.skip(i as int), 1, run);
    }
    let ghost bs = byte_payloads(model.skip(i as int), 1, run);
    // copy the payloads, counting non-zero bytes for the header
    let is_header = mn == Mn::HeaderBytes;
    let mut w = i + 1;
    while w < jend
        invariant
            i + 1 <= w <= jend <= n,
            n == code@.len(),
            model == toks_view(code@),
            run == jend - i - 1,
            bs == byte_payloads(model.skip(i as int), 1, run),
            forall|q: int| 0 <= q < code@.len() ==> toks_view(code@)[q] == tok_view(code@[q]),
            forall|q: int| i + 1 <= q < jend ==> model[q] is Byte,
            forall|q: int|
                1 <= q < 1 + run ==> (#[trigger] model.skip(i as int)[q]) == model[i + q],
            bs.len() == run,
            out@ == st.out + bs.take(w - i - 1),
            labels@ == st.labels,
            routines@ == st.routines,
            header.closed == st.hclosed,
            is_header == (mn == Mn::HeaderBytes),
            header.size as nat == st.hsize + (if is_header {
                nonzero_count(bs.take(w - i - 1))
            } else {
                0nat
            }),
            st_wf(st_of(out@, labels@, routines@, *header)),
        decreases jend - w,
    {
        let b: u8 = match &code[w] {
            Token::Byte(bv) => *bv,
            _ => {
                proof {
                    assert(model[w as int] is Byte);
                    assert(false);
                }
                0
            },
        };
        proof {
            assert(bs.take(w - i - 1 + 1).drop_last() =~= bs.take(w - i - 1));
            assert(bs.take(w - i - 1 + 1).last() == bs[w - i - 1]);
            assert(bs[w - i - 1] == model[w as int]->Byte_0);
        }
        out.push(b);
        let _n2 = out.len();
        if is_header && b != 0 {
            header.size = header.size + 1;
        }
        w = w + 1;
    }
    proof {
        assert(bs.take(run) =~= bs);
    }
    // the token that ends the run is consumed along with it
    let next = if jend < n {
        jend + 1
    } else {
        jend
    };
    proof {
        let consumed = (next - i) as int;
        assert(model.skip(i as int).skip(consumed) =~= model.skip(next as int));
        if mn == Mn::HeaderBytes {
            assert(st_of(out@, labels@, routines@, *header) == St {
                out: st.out + bs,
                hsize: st.hsize + nonzero_count(bs),
                ..st
            });
        } else {
            assert(st_of(out@, labels@, routines@, *header) == emit(st, bs));
        }
        assert(st.out.is_prefix_of(out@));
    }
    Ok(next)
}

} // verus!
// Nested compilation: routine expansion, conditional blocks, loop
// unrolling, and the driver.

verus! {

/// Eight bytes written over the buffer: the backpatch write.
fn write8(out: &mut Vec<u8>, at: usize, le: &Vec<u8>)
    requires
        le@.len() == 8,
        at + 8 <= old(out)@.len(),
    ensures
        final(out)@ == splice8(old(out)@, at as int, le@),
{
    let _n = out.len();
    out[at] = le[0];
    out[at + 1] = le[1];
    out[at + 2] = le[2];
    out[at + 3] = le[3];
    out[at + 4] = le[4];
    out[at + 5] = le[5];
    out[at + 6] = le[6];
    out[at + 7] = le[7];
    proof {
        assert(out@ =~= splice8(old(out)@, at as int, le@));
    }
}

/// `call`: compile a fresh copy of a registered routine body in place.
fn gen_call(
    code: &Vec<Token>,
    i: usize,
    m: &Vec<u8>,
    out: &mut Vec<u8>,
    labels: &mut ByteTable,
    routines: &mut RoutineTable,
    header: &mut HeaderState,
    floats: &FloatEval,
    depth: u64,
) -> (r: Result<usize, CompileError>)
    requires
        i < code@.len(),
        toks_view(code@)[i as int] == Tok::Ident(m@),
        spec_mnemonic(m@) == Mn::Call,
        st_wf(st_of(old(out)@, old(labels)@, old(routines)@, *old(header))),
    ensures
        gen_step_post(
            code@,
            i,
            r,
            old(out)@,
            old(labels)@,
            old(routines)@,
            *old(header),
            final(out)@,
            final(labels)@,
            final(routines)@,
            *final(header),
            floats@,
            depth as nat,
        ),
    decreases depth, toks_view(code@), 0int,
{
    let ghost model = toks_view(code@);
    let ghost st = st_of(out@, labels@, routines@, *header);
    let ghost fuel: nat = depth as nat;
    let n = code.len();
    proof {
        lemma_toks_view(code@);
        assert(model.skip(i as int)[0] == model[i as int]);
        assert(model.skip(i as int).len() == n - i);
    }
    if n - i < 2 {
        return Err(CompileError::BadOperand(copy_bytes(m)));
    }
    proof {
        assert(model.skip(i as int)[1] == model[i + 1]);
    }
    match &code[i + 1] {
        Token::Ident(namev) => {
            match routines.get_copy(namev) {
                None => Err(CompileError::UnknownRoutine(copy_bytes(namev))),
                Some(body) => {
                    if depth == 0 {
                        return Err(CompileError::RoutineRecursion);
                    }
                    let ghost bodym = toks_view(body@);
                    proof {
                        assert(bodym == st.routines[namev@]);
                    }
                    match compile_at(&body, out, labels, routines, header, floats, depth - 1) {
                        Err(e) => {
                            proof {
                                assert(spec_compile(model.skip(i as int), st, floats@, fuel)
                                    == Err::<St, CErr>(e@));
                            }
                            Err(e)
                        },
                        Ok(()) => {
                            proof {
                                assert(model.skip(i as int).skip(2) =~= model.skip(i + 2));
                                assert(spec_compile(model.skip(i as int), st, floats@, fuel)
                                    == spec_compile(
                                    model.skip(i + 2),
                                    st_of(out@, labels@, routines@, *header),
                                    floats@,
                                    fuel,
                                ));
                            }
                            Ok(i + 2)
                        },
                    }
                },
            }
        },
        _ => Err(CompileError::BadOperand(copy_bytes(m))),
    }
}

/// `if`: a conditional forward jump over a speculatively compiled body,
/// its eight-byte target patched in once the body's length is known.
fn gen_if(
    code: &Vec<Token>,
    i: usize,
    m: &Vec<u8>,
    out: &mut Vec<u8>,
    labels: &mut ByteTable,
    routines: &mut RoutineTable,
    header: &mut HeaderState,
    floats: &FloatEval,
    depth: u64,
) -> (r: Result<usize, CompileError>)
    requires
        i < code@.len(),
        toks_view(code@)[i as int] == Tok::Ident(m@),
        spec_mnemonic(m@) == Mn::IfBlock,
        st_wf(st_of(old(out)@, old(labels)@, old(routines)@, *old(header))),
    ensures
        gen_step_post(
            code@,
            i,
            r,
            old(out)@,
            old(labels)@,
            old(routines)@,
            *old(header),
            final(out)@,
            final(labels)@,
            final(routines)@,
            *final(header),
            floats@,
            depth as nat,
        ),
    decreases depth, toks_view(code@), 0int,
{
    let ghost model = toks_view(code@);
    let ghost st = st_of(out@, labels@, routines@, *header);
    let ghost fuel: nat = depth as nat;
    let n = code.len();
    proof {
        lemma_toks_view(code@);
        assert(model.skip(i as int)[0] == model[i as int]);
        assert(model.skip(i as int).len() == n - i);
    }
    if n - i < 3 {
        return Err(CompileError::BadOperand(copy_bytes(m)));
    }
    proof {
        assert(model.skip(i as int)[1] == model[i + 1]);
        assert(model.skip(i as int)[2] == model[i + 2]);
    }
    match (&code[i + 1], &code[i + 2]) {
        (Token::Var(cond), Token::Block(body)) => {
            out.push(0xe2);
            out.push(*cond);
            let z = vstd::bytes::u64_to_le_bytes(0u64);
            out.extend_from_slice(z.as_slice());
            let after = out.len();
            let marker = after - 8;
            let ghost st1 = st_of(out@, labels@, routines@, *header);
            let ghost bodym = toks_view(body@);
            proof {
                assert(out@ =~= st.out + (seq![0xe2u8, model[i + 1]->Var_0] + le8(0)));
                assert(st1 == emit(st, seq![0xe2u8, model[i + 1]->Var_0] + le8(0)));
                assert(marker as int == st.out.len() + 2);
                assert(model[i + 2] == Tok::Block(bodym));
                assert(decreases_to!(model => model[i + 2]));
                assert(decreases_to!(model[i + 2] => model[i + 2]->Block_0));
            }
            match compile_at(body, out, labels, routines, header, floats, depth) {
                Err(e) => {
                    proof {
                        assert(spec_compile(model.skip(i as int), st, floats@, fuel) == Err::<
                            St,
                            CErr,
                        >(e@));
                    }
                    Err(e)
                },
                Ok(()) => {
                    let ghost st2 = st_of(out@, labels@, routines@, *header);
                    let endpos = out.len();
                    proof {
                        assert(st1.out.is_prefix_of(st2.out));
                        assert(marker + 8 <= out@.len());
                    }
                    let le = vstd::bytes::u64_to_le_bytes(endpos as u64);
                    write8(out, marker, &le);
                    proof {
                        assert(endpos as u64 == st2.out.len() as u64);
                        assert(out@ == splice8(st2.out, st.out.len() as int + 2, le8(
                            st2.out.len() as u64,
                        )));
                        assert(st_of(out@, labels@, routines@, *header) == St {
                            out: splice8(st2.out, st.out.len() as int + 2, le8(st2.out.len() as u64)),
                            ..st2
                        });
                        assert(model.skip(i as int).skip(3) =~= model.skip(i + 3));
                        assert(spec_compile(model.skip(i as int), st, floats@, fuel)
                            == spec_compile(
                            model.skip(i + 3),
                            st_of(out@, labels@, routines@, *header),
                            floats@,
                            fuel,
                        ));
                        assert(st.out.is_prefix_of(out@)) by {
                            assert(st.out =~= out@.subrange(0, st.out.len() as int));
                        }
                        assert(st_wf(st_of(out@, labels@, routines@, *header)));
                    }
                    Ok(i + 3)
                },
            }
        },
        _ => Err(CompileError::BadOperand(copy_bytes(m))),
    }
}

/// `rep`: compile the block once per iteration, fully unrolled; labels
/// declared inside are redeclared each round.
fn gen_rep(
    code: &Vec<Token>,
    i: usize,
    m: &Vec<u8>,
    out: &mut Vec<u8>,
    labels: &mut ByteTable,
    routines: &mut RoutineTable,
    header: &mut HeaderState,
    floats: &FloatEval,
    depth: u64,
) -> (r: Result<usize, CompileError>)
    requires
        i < code@.len(),
        toks_view(code@)[i as int] == Tok::Ident(m@),
        spec_mnemonic(m@) == Mn::Rep,
        st_wf(st_of(old(out)@, old(labels)@, old(routines)@, *old(header))),
    ensures
        gen_step_post(
            code@,
            i,
            r,
            old(out)@,
            old(labels)@,
            old(routines)@,
            *old(header),
            final(out)@,
            final(labels)@,
            final(routines)@,
            *final(header),
            floats@,
            depth as nat,
        ),
    decreases depth, toks_view(code@), 0int,
{
    let ghost model = toks_view(code@);
    let ghost st = st_of(out@, labels@, routines@, *header);
    let ghost fuel: nat = depth as nat;
    let n = code.len();
    proof {
        lemma_toks_view(code@);
        assert(model.skip(i as int)[0] == model[i as int]);
        assert(model.skip(i as int).len() == n - i);
    }
    if n - i < 3 {
        return Err(CompileError::BadOperand(copy_bytes(m)));
    }
    proof {
        assert(model.skip(i as int)[1] == model[i + 1]);
        assert(model.skip(i as int)[2] == model[i + 2]);
    }
    match (&code[i + 1], &code[i + 2]) {
        (Token::Num(cnt), Token::Block(body)) => {
            let cv: i64 = *cnt;
            let ghost bodym = toks_view(body@);
            let ghost reps: nat = if cv > 0 {
                cv as nat
            } else {
                0nat
            };
            proof {
                assert(model[i + 2] == Tok::Block(bodym));
                assert(model[i + 1]->Num_0 == cv);
            }
            let mut done: i64 = 0;
            while done < cv
                invariant
                    0 <= done,
                    done <= (if cv > 0 {
                        cv
                    } else {
                        0
                    }),
                    reps == (if cv > 0 {
                        cv as nat
                    } else {
                        0nat
                    }),
                    fuel == depth as nat,
                    model == toks_view(code@),
                    bodym == toks_view(body@),
                    model.len() > i + 2,
                    model[i as int] == Tok::Ident(m@),
                    spec_mnemonic(m@) == Mn::Rep,
                    model[i + 1] == Tok::Num(cv),
                    model[i + 2] == Tok::Block(bodym),
                    st == st_of(old(out)@, old(labels)@, old(routines)@, *old(header)),
                    st_wf(st_of(out@, labels@, routines@, *header)),
                    st.out.is_prefix_of(out@),
                    spec_rep(bodym, reps, st, floats@, fuel) == spec_rep(
                        bodym,
                        (reps - done) as nat,
                        st_of(out@, labels@, routines@, *header),
                        floats@,
                        fuel,
                    ),
                decreases cv - done,
            {
                let ghost cur = st_of(out@, labels@, routines@, *header);
                proof {
                    assert(decreases_to!(model => model[i + 2]));
                    assert(decreases_to!(model[i + 2] => model[i + 2]->Block_0));
                }
                match compile_at(body, out, labels, routines, header, floats, depth) {
                    Err(e) => {
                        proof {
                            assert(spec_rep(bodym, (reps - done) as nat, cur, floats@, fuel)
                                == Err::<St, CErr>(e@));
                            assert(model.skip(i as int)[0] == model[i as int]);
                            assert(model.skip(i as int)[1] == model[i + 1]);
                            assert(model.skip(i as int)[2] == model[i + 2]);
                            assert(model.skip(i as int).len() >= 3);
                            assert(spec_compile(model.skip(i as int), st, floats@, fuel) == Err::<
                                St,
                                CErr,
                            >(e@));
                            lemma_prefix_trans(st.out, cur.out, out@);
                        }
                        return Err(e);
                    },
                    Ok(()) => {
                        proof {
                            let next = st_of(out@, labels@, routines@, *header);
                            assert(spec_rep(bodym, (reps - done) as nat, cur, floats@, fuel)
                                == spec_rep(bodym, (reps - done - 1) as nat, next, floats@, fuel));
                            lemma_prefix_trans(st.out, cur.out, out@);
                        }
                        done = done + 1;
                    },
                }
            }
            proof {
                assert(reps - done == 0);
                assert(spec_rep(bodym, reps, st, floats@, fuel) == Ok::<St, CErr>(
                    st_of(out@, labels@, routines@, *header),
                ));
                assert(model.skip(i as int).skip(3) =~= model.skip(i + 3));
                assert(spec_compile(model.skip(i as int), st, floats@, fuel) == spec_compile(
                    model.skip(i + 3),
                    st_of(out@, labels@, routines@, *header),
                    floats@,
                    fuel,
                ));
            }
            Ok(i + 3)
        },
        _ => Err(CompileError::BadOperand(copy_bytes(m))),
    }
}

/// The driver: consume statements one at a time, keeping the semantics'
/// verdict for the remaining tokens equal to its verdict for the whole.
#[verifier::rlimit(100)]
fn compile_at(
    code: &Vec<Token>,
    out: &mut Vec<u8>,
    labels: &mut ByteTable,
    routines: &mut RoutineTable,
    header: &mut HeaderState,
    floats: &FloatEval,
    depth: u64,
) -> (r: Result<(), CompileError>)
    requires
        st_wf(st_of(old(out)@, old(labels)@, old(routines)@, *old(header))),
    ensures
        ({
            let st0 = st_of(old(out)@, old(labels)@, old(routines)@, *old(header));
            let st1 = st_of(final(out)@, final(labels)@, final(routines)@, *final(header));
            match spec_compile(toks_view(code@), st0, floats@, depth as nat) {
                Ok(st2) => r is Ok && st1 == st2 && st_wf(st2),
                Err(e) => r matches Err(e2) && e2@ == e,
            }
        }),
        old(out)@.is_prefix_of(final(out)@),
    decreases depth, toks_view(code@), 1int,
{
    let ghost model = toks_view(code@);
    let ghost st0 = st_of(out@, labels@, routines@, *header);
    let ghost fuel: nat = depth as nat;
    let n = code.len();
    proof {
        lemma_toks_view(code@);
        assert(model.skip(0) =~= model);
    }
    let mut i: usize = 0;
    while i < n
        invariant
            i <= n,
            n == code@.len(),
            model == toks_view(code@),
            fuel == depth as nat,
            toks_view(code@).len() == code@.len(),
            forall|q: int| 0 <= q < code@.len() ==> toks_view(code@)[q] == tok_view(code@[q]),
            st0 == st_of(old(out)@, old(labels)@, old(routines)@, *old(header)),
            st_wf(st0),
            st_wf(st_of(out@, labels@, routines@, *header)),
            st0.out.is_prefix_of(out@),
            spec_compile(model, st0, floats@, fuel) == spec_compile(
                model.skip(i as int),
                st_of(out@, labels@, routines@, *header),
                floats@,
                fuel,
            ),
        decreases n - i,
    {
        let ghost cur = st_of(out@, labels@, routines@, *header);
        proof {
            assert(model.skip(i as int)[0] == model[i as int]);
            assert(model.skip(i as int).len() == n - i);
        }
        match &code[i] {
            Token::EndL => {
                proof {
                    assert(model[i as int] == Tok::EndL);
                    assert(model.skip(i as int).skip(1) =~= model.skip(i + 1));
                    assert(spec_compile(model.skip(i as int), cur, floats@, fuel) == spec_compile(
                        model.skip(i + 1),
                        cur,
                        floats@,
                        fuel,
                    ));
                }
                i = i + 1;
            },
            Token::Label(namev) => {
                let ol = out.len();
                let adj: usize = if header.closed {
                    1
                } else {
                    0
                };
                let off = ol - header.size - adj;
                labels.insert(copy_bytes(namev), off as u64);
                proof {
                    assert(model[i as int] == Tok::Label(namev@));
                    assert(off as int == label_off(cur));
                    assert(st_of(out@, labels@, routines@, *header) == St {
                        labels: cur.labels.insert(namev@, label_off(cur) as u64),
                        ..cur
                    });
                    assert(model.skip(i as int).skip(1) =~= model.skip(i + 1));
                    assert(spec_compile(model.skip(i as int), cur, floats@, fuel) == spec_compile(
                        model.skip(i + 1),
                        st_of(out@, labels@, routines@, *header),
                        floats@,
                        fuel,
                    ));
                }
                i = i + 1;
            },
            Token::Ident(mname) => {
                proof {
                    assert(model[i as int] == Tok::Ident(mname@));
                }
                let mn = mnemonic_of(mname);
                let step: Result<usize, CompileError> = match mn {
                    Mn::KeepLoop => gen_keepflag(
                        code,
                        i,
                        mname,
                        out,
                        labels,
                        routines,
                        header,
                        floats,
                        Ghost(fuel),
                    ),
                    Mn::KeepOpen => gen_keepflag(
                        code,
                        i,
                        mname,
                        out,
                        labels,
                        routines,
                        header,
                        floats,
                        Ghost(fuel),
                    ),
                    Mn::EndHead => gen_endhead(
                        code,
                        i,
                        mname,
                        out,
                        labels,
                        routines,
                        header,
                        floats,
                        Ghost(fuel),
                    ),
                    Mn::HeaderBytes => gen_byte_run(
                        code,
                        i,
                        mname,
                        mn,
                        out,
                        labels,
                        routines,
                        header,
                        floats,
                        Ghost(fuel),
                    ),
                    Mn::RawBytes => gen_byte_run(
                        code,
                        i,
                        mname,
                        mn,
                        out,
                        labels,
                        routines,
                        header,
                        floats,
                        Ghost(fuel),
                    ),
                    Mn::Noop => gen_noop(
                        code,
                        i,
                        mname,
                        out,
                        labels,
                        routines,
                        header,
                        floats,
                        Ghost(fuel),
                    ),
                    Mn::Flsh => gen_flsh(
                        code,
                        i,
                        mname,
                        out,
                        labels,
                        routines,
                        header,
                        floats,
                        Ghost(fuel),
                    ),
                    Mn::Cls => gen_cls(
                        code,
                        i,
                        mname,
                        out,
                        labels,
                        routines,
                        header,
                        floats,
                        Ghost(fuel),
                    ),
                    Mn::Cpix => gen_cpix(
                        code,
                        i,
                        mname,
                        out,
                        labels,
                        routines,
                        header,
                        floats,
                        Ghost(fuel),
                    ),
                    Mn::Pix => gen_pix(
                        code,
                        i,
                        mname,
                        out,
                        labels,
                        routines,
                        header,
                        floats,
                        Ghost(fuel),
                    ),
                    Mn::Gt => gen_gt(
                        code,
                        i,
                        mname,
                        out,
                        labels,
                        routines,
                        header,
                        floats,
                        Ghost(fuel),
                    ),
                    Mn::Lt => gen_lt(
                        code,
                        i,
                        mname,
                        out,
                        labels,
                        routines,
                        header,
                        floats,
                        Ghost(fuel),
                    ),
                    Mn::Key => gen_key(
                        code,
                        i,
                        mname,
                        out,
                        labels,
                        routines,
                        header,
                        floats,
                        Ghost(fuel),
                    ),
                    Mn::Spr => gen_spr(
                        code,
                        i,
                        mname,
                        out,
                        labels,
                        routines,
                        header,
                        floats,
                        Ghost(fuel),
                    ),
                    Mn::VarDecl => gen_assign(
                        code,
                        i,
                        mname,
                        out,
                        labels,
                        routines,
                        header,
                        floats,
                        Ghost(fuel),
                    ),
                    Mn::LetDecl => gen_assign(
                        code,
                        i,
                        mname,
                        out,
                        labels,
                        routines,
                        header,
                        floats,
                        Ghost(fuel),
                    ),
                    Mn::IntDiv => gen_int_arith(
                        code,
                        i,
                        mname,
                        mn,
                        out,
                        labels,
                        routines,
                        header,
                        floats,
                        Ghost(fuel),
                    ),
                    Mn::IntSub => gen_int_arith(
                        code,
                        i,
                        mname,
                        mn,
                        out,
                        labels,
                        routines,
                        header,
                        floats,
                        Ghost(fuel),
                    ),
                    Mn::IntAdd => gen_int_arith(
                        code,
                        i,
                        mname,
                        mn,
                        out,
                        labels,
                        routines,
                        header,
                        floats,
                        Ghost(fuel),
                    ),
                    Mn::IntMul => gen_int_arith(
                        code,
                        i,
                        mname,
                        mn,
                        out,
                        labels,
                        routines,
                        header,
                        floats,
                        Ghost(fuel),
                    ),
                    Mn::FDiv => gen_float_arith(
                        code,
                        i,
                        mname,
                        mn,
                        out,
                        labels,
                        routines,
                        header,
                        floats,
                        Ghost(fuel),
                    ),
                    Mn::FSub => gen_float_arith(
                        code,
                        i,
                        mname,
                        mn,
                        out,
                        labels,
                        routines,
                        header,
                        floats,
                        Ghost(fuel),
                    ),
                    Mn::FAdd => gen_float_arith(
                        code,
                        i,
                        mname,
                        mn,
                        out,
                        labels,
                        routines,
                        header,
                        floats,
                        Ghost(fuel),
                    ),
                    Mn::FMul => gen_float_arith(
                        code,
                        i,
                        mname,
                        mn,
                        out,
                        labels,
                        routines,
                        header,
                        floats,
                        Ghost(fuel),
                    ),
                    Mn::FJmp => gen_cond_jump(
                        code,
                        i,
                        mname,
                        mn,
                        out,
                        labels,
                        routines,
                        header,
                        floats,
                        Ghost(fuel),
                    ),
                    Mn::TJmp => gen_cond_jump(
                        code,
                        i,
                        mname,
                        mn,
                        out,
                        labels,
                        routines,
                        header,
                        floats,
                        Ghost(fuel),
                    ),
                    Mn::Jmp => gen_jmp(
                        code,
                        i,
                        mname,
                        out,
                        labels,
                        routines,
                        header,
                        floats,
                        Ghost(fuel),
                    ),
                    Mn::BJmp => gen_bjmp(
                        code,
                        i,
                        mname,
                        out,
                        labels,
                        routines,
                        header,
                        floats,
                        Ghost(fuel),
                    ),
                    Mn::Routine => gen_routine(
                        code,
                        i,
                        mname,
                        out,
                        labels,
                        routines,
                        header,
                        floats,
                        Ghost(fuel),
                    ),
                    Mn::Call => gen_call(code, i, mname, out, labels, routines, header, floats, depth),
                    Mn::IfBlock => gen_if(code, i, mname, out, labels, routines, header, floats, depth),
                    Mn::Rep => gen_rep(code, i, mname, out, labels, routines, header, floats, depth),
                    Mn::Unknown => Err(CompileError::UnknownMnemonic(copy_bytes(mname))),
                };
                match step {
                    Ok(j) => {
                        proof {
                            lemma_prefix_trans(st0.out, cur.out, out@);
                        }
                        i = j;
                    },
                    Err(e) => {
                        proof {
                            if mn == Mn::Unknown {
                                assert(spec_compile(model.skip(i as int), cur, floats@, fuel)
                                    == Err::<St, CErr>(CErr::UnknownMnemonic(mname@)));
                            }
                        }
                        return Err(e);
                    },
                }
            },
            _ => {
                proof {
                    assert(!(model[i as int] is Ident));
                    assert(!(model[i as int] is Label));
                    assert(!(model[i as int] is EndL));
                    assert(spec_compile(model.skip(i as int), cur, floats@, fuel) == Err::<
                        St,
                        CErr,
                    >(CErr::StrayToken));
                }
                return Err(CompileError::StrayToken);
            },
        }
    }
    proof {
        assert(model.skip(n as int) =~= Seq::<Tok>::empty());
        assert(spec_compile(model.skip(n as int), st_of(out@, labels@, routines@, *header), floats@, fuel)
            == Ok::<St, CErr>(st_of(out@, labels@, routines@, *header)));
    }
    Ok(())
}

/// The code generator: walk `code` statement by statement, emitting the
/// ATC encoding into `compiled_out`, recording labels and routines in the
/// tables, and tracking the header region. On success the final buffer,
/// tables and header state are exactly what [`spec_compile`] assigns with
/// fuel [`CALL_DEPTH_LIMIT`]; on failure the error is the one it assigns,
/// and whatever was already in the buffer is still a prefix of it.
pub fn compile(
    code: &Vec<Token>,
    compiled_out: &mut Vec<u8>,
    labels: &mut ByteTable,
    routines: &mut RoutineTable,
    header: &mut HeaderState,
    floats: &FloatEval,
) -> (r: Result<(), CompileError>)
    requires
        st_wf(st_of(old(compiled_out)@, old(labels)@, old(routines)@, *old(header))),
    ensures
        ({
            let st0 = st_of(old(compiled_out)@, old(labels)@, old(routines)@, *old(header));
            let st1 = st_of(final(compiled_out)@, final(labels)@, final(routines)@, *final(header));
            match spec_compile(toks_view(code@), st0, floats@, CALL_DEPTH_LIMIT as nat) {
                Ok(st2) => r is Ok && st1 == st2 && st_wf(st2),
                Err(e) => r matches Err(e2) && e2@ == e,
            }
        }),
        old(compiled_out)@.is_prefix_of(final(compiled_out)@),
{
    compile_at(code, compiled_out, labels, routines, header, floats, CALL_DEPTH_LIMIT)
}

} // verus!
// Float collection: which numerals and folds a program needs evaluated.

verus! {

/// A float arithmetic mnemonic.
pub open spec fn is_float_mnemonic(mn: Mn) -> bool {
    mn == Mn::FDiv || mn == Mn::FSub || mn == Mn::FAdd || mn == Mn::FMul
}

/// Every float numeral in the token tree, blocks included, in order.
pub open spec fn seq_numerals(ts: Seq<Tok>) -> Seq<Seq<u8>>
    decreases ts,
{
    if ts.len() == 0 {
        Seq::empty()
    } else {
        (match ts[0] {
            Tok::Float(t) => seq![t],
            Tok::Block(b) => seq_numerals(b),
            _ => Seq::empty(),
        }) + seq_numerals(ts.skip(1))
    }
}

/// Every constant-fold site in the token tree: a float arithmetic
/// mnemonic followed by two float literals, at any block depth.
pub open spec fn fold_sites(ts: Seq<Tok>) -> Seq<(FloatOp, Seq<u8>, Seq<u8>)>
    decreases ts,
{
    if ts.len() == 0 {
        Seq::empty()
    } else {
        let here: Seq<(FloatOp, Seq<u8>, Seq<u8>)> = if ts[0] matches Tok::Ident(m)
            && is_float_mnemonic(spec_mnemonic(ts[0]->Ident_0)) && ts.len() >= 3 && ts[1] is Float
            && ts[2] is Float {
            seq![
                (
                    float_op_of(spec_mnemonic(ts[0]->Ident_0)),
                    ts[1]->Float_0,
                    ts[2]->Float_0,
                ),
            ]
        } else {
            Seq::empty()
        };
        let inner: Seq<(FloatOp, Seq<u8>, Seq<u8>)> = if ts[0] is Block {
            fold_sites(ts[0]->Block_0)
        } else {
            Seq::empty()
        };
        here + inner + fold_sites(ts.skip(1))
    }
}

/// The abstraction of a collected numeral list.
pub open spec fn texts_view(s: Seq<Vec<u8>>) -> Seq<Seq<u8>>
    decreases s,
{
    if s.len() == 0 {
        Seq::empty()
    } else {
        seq![s[0]@] + texts_view(s.skip(1))
    }
}

/// `texts_view` maps the list pointwise.
proof fn lemma_texts_view(s: Seq<Vec<u8>>)
    ensures
        texts_view(s).len() == s.len(),
        forall|q: int| 0 <= q < s.len() ==> texts_view(s)[q] == s[q]@,
    decreases s.len(),
{
    if s.len() > 0 {
        lemma_texts_view(s.skip(1));
    }
}

proof fn lemma_texts_view_push(s: Seq<Vec<u8>>, t: Vec<u8>)
    ensures
        texts_view(s.push(t)) == texts_view(s).push(t@),
{
    lemma_texts_view(s.push(t));
    lemma_texts_view(s);
    assert(texts_view(s.push(t)) =~= texts_view(s).push(t@));
}

/// The abstraction of a collected fold-site list.
pub open spec fn sites_view(s: Seq<(FloatOp, Vec<u8>, Vec<u8>)>) -> Seq<
    (FloatOp, Seq<u8>, Seq<u8>),
>
    decreases s,
{
    if s.len() == 0 {
        Seq::empty()
    } else {
        seq![(s[0].0, s[0].1@, s[0].2@)] + sites_view(s.skip(1))
    }
}

proof fn lemma_sites_view(s: Seq<(FloatOp, Vec<u8>, Vec<u8>)>)
    ensures
        sites_view(s).len() == s.len(),
        forall|q: int| #![trigger s[q]]
            0 <= q < s.len() ==> sites_view(s)[q] == (s[q].0, s[q].1@, s[q].2@),
    decreases s.len(),
{
    if s.len() > 0 {
        lemma_sites_view(s.skip(1));
        assert forall|q: int| #![trigger s[q]] 0 <= q < s.len() implies sites_view(s)[q] == (
            s[q].0,
            s[q].1@,
            s[q].2@,
        ) by {
            if q > 0 {
                assert(s.skip(1)[q - 1] == s[q]);
                assert(sites_view(s)[q] == sites_view(s.skip(1))[q - 1]);
            }
        }
    }
}

proof fn lemma_sites_view_push(s: Seq<(FloatOp, Vec<u8>, Vec<u8>)>, t: (FloatOp, Vec<u8>, Vec<u8>))
    ensures
        sites_view(s.push(t)) == sites_view(s).push((t.0, t.1@, t.2@)),
{
    lemma_sites_view(s.push(t));
    lemma_sites_view(s);
    assert forall|q: int| 0 <= q < s.len() + 1 implies sites_view(s.push(t))[q] == sites_view(
        s,
    ).push((t.0, t.1@, t.2@))[q] by {
        if q < s.len() {
            assert(s.push(t)[q] == s[q]);
        } else {
            assert(s.push(t)[q] == t);
        }
    }
    assert(sites_view(s.push(t)) =~= sites_view(s).push((t.0, t.1@, t.2@)));
}

/// Walk the tree collecting numerals into `acc`.
fn collect_numerals(code: &Vec<Token>, acc: &mut Vec<Vec<u8>>)
    ensures
        texts_view(final(acc)@) == texts_view(old(acc)@) + seq_numerals(toks_view(code@)),
    decreases toks_view(code@),
{
    let ghost model = toks_view(code@);
    let ghost acc0 = acc@;
    let n = code.len();
    proof {
        lemma_toks_view(code@);
        assert(model.skip(0) =~= model);
    }
    let mut i: usize = 0;
    while i < n
        invariant
            i <= n,
            n == code@.len(),
            model == toks_view(code@),
            toks_view(code@).len() == code@.len(),
            forall|q: int| 0 <= q < code@.len() ==> toks_view(code@)[q] == tok_view(code@[q]),
            texts_view(acc0) + seq_numerals(model) == texts_view(acc@) + seq_numerals(
                model.skip(i as int),
            ),
        decreases n - i,
    {
        proof {
            assert(model.skip(i as int)[0] == model[i as int]);
            assert(model.skip(i as int).skip(1) =~= model.skip(i + 1));
        }
        let ghost accb = acc@;
        match &code[i] {
            Token::Float(tv) => {
                acc.push(copy_bytes(tv));
                proof {
                    lemma_texts_view_push(accb, acc@.last());
                    assert(seq_numerals(model.skip(i as int)) =~= seq![tv@] + seq_numerals(
                        model.skip(i + 1),
                    ));
                    assert(texts_view(acc0) + seq_numerals(model) =~= texts_view(acc@)
                        + seq_numerals(model.skip(i + 1)));
                }
            },
            Token::Block(b) => {
                proof {
                    assert(model[i as int] == Tok::Block(toks_view(b@)));
                    assert(decreases_to!(model => model[i as int]));
                    assert(decreases_to!(model[i as int] => model[i as int]->Block_0));
                }
                collect_numerals(b, acc);
                proof {
                    assert(seq_numerals(model.skip(i as int)) =~= seq_numerals(toks_view(b@))
                        + seq_numerals(model.skip(i + 1)));
                    assert(texts_view(acc0) + seq_numerals(model) =~= texts_view(acc@)
                        + seq_numerals(model.skip(i + 1)));
                }
            },
            _ => {
                proof {
                    assert(seq_numerals(model.skip(i as int)) =~= seq_numerals(model.skip(i + 1)));
                }
            },
        }
        i = i + 1;
    }
    proof {
        assert(model.skip(n as int) =~= Seq::<Tok>::empty());
        assert(texts_view(acc0) + seq_numerals(model) =~= texts_view(acc@));
    }
}

/// Walk the tree collecting fold sites into `acc`.
fn collect_fold_sites(code: &Vec<Token>, acc: &mut Vec<(FloatOp, Vec<u8>, Vec<u8>)>)
    ensures
        sites_view(final(acc)@) == sites_view(old(acc)@) + fold_sites(toks_view(code@)),
    decreases toks_view(code@),
{
    let ghost model = toks_view(code@);
    let ghost acc0 = acc@;
    let n = code.len();
    proof {
        lemma_toks_view(code@);
        assert(model.skip(0) =~= model);
    }
    let mut i: usize = 0;
    while i < n
        invariant
            i <= n,
            n == code@.len(),
            model == toks_view(code@),
            toks_view(code@).len() == code@.len(),
            forall|q: int| 0 <= q < code@.len() ==> toks_view(code@)[q] == tok_view(code@[q]),
            sites_view(acc0) + fold_sites(model) == sites_view(acc@) + fold_sites(
                model.skip(i as int),
            ),
        decreases n - i,
    {
        proof {
            assert(model.skip(i as int)[0] == model[i as int]);
            assert(model.skip(i as int).skip(1) =~= model.skip(i + 1));
            assert(model.skip(i as int).len() == n - i);
            if i + 1 < n {
                assert(model.skip(i as int)[1] == model[i + 1]);
            }
            if i + 2 < n {
                assert(model.skip(i as int)[2] == model[i + 2]);
            }
        }
        let ghost accb = acc@;
        let ghost rest = model.skip(i as int);
        match &code[i] {
            Token::Ident(mname) => {
                let mn = mnemonic_of(mname);
                let is_f = mn == Mn::FDiv || mn == Mn::FSub || mn == Mn::FAdd || mn == Mn::FMul;
                let mut pushed = false;
                if is_f && n - i > 2 {
                    match (&code[i + 1], &code[i + 2]) {
                        (Token::Float(la), Token::Float(lb)) => {
                            let op: FloatOp = if mn == Mn::FDiv {
                                FloatOp::Div
                            } else if mn == Mn::FSub {
                                FloatOp::Sub
                            } else if mn == Mn::FAdd {
                                FloatOp::Add
                            } else {
                                FloatOp::Mul
                            };
                            proof {
                                assert(op == float_op_of(mn));
                            }
                            acc.push((op, copy_bytes(la), copy_bytes(lb)));
                            pushed = true;
                            proof {
                                lemma_sites_view_push(accb, acc@.last());
                                assert(fold_sites(rest) =~= seq![
                                    (float_op_of(mn), la@, lb@),
                                ] + fold_sites(model.skip(i + 1)));
                                assert(sites_view(acc0) + fold_sites(model) =~= sites_view(acc@)
                                    + fold_sites(model.skip(i + 1)));
                            }
                        },
                        _ => {},
                    }
                }
                if !pushed {
                    proof {
                        assert(fold_sites(rest) =~= fold_sites(model.skip(i + 1)));
                    }
                }
            },
            Token::Block(b) => {
                proof {
                    assert(model[i as int] == Tok::Block(toks_view(b@)));
                    assert(decreases_to!(model => model[i as int]));
                    assert(decreases_to!(model[i as int] => model[i as int]->Block_0));
                }
                collect_fold_sites(b, acc);
                proof {
                    assert(fold_sites(rest) =~= fold_sites(toks_view(b@)) + fold_sites(
                        model.skip(i + 1),
                    ));
                    assert(sites_view(acc0) + fold_sites(model) =~= sites_view(acc@) + fold_sites(
                        model.skip(i + 1),
                    ));
                }
            },
            _ => {
                proof {
                    assert(fold_sites(rest) =~= fold_sites(model.skip(i + 1)));
                }
            },
        }
        i = i + 1;
    }
    proof {
        assert(model.skip(n as int) =~= Seq::<Tok>::empty());
        assert(sites_view(acc0) + fold_sites(model) =~= sites_view(acc@));
    }
}

/// The numeral text of every float literal in the program, blocks
/// included, in order: what the embedding program must evaluate into
/// payload bits for the [`crate::tables::FloatEval`] table.
pub fn float_numerals(code: &Vec<Token>) -> (r: Vec<Vec<u8>>)
    ensures
        texts_view(r@) == seq_numerals(toks_view(code@)),
{
    let mut acc: Vec<Vec<u8>> = Vec::new();
    proof {
        assert(texts_view(Seq::<Vec<u8>>::empty()) + seq_numerals(toks_view(code@)) =~= seq_numerals(
            toks_view(code@),
        ));
    }
    collect_numerals(code, &mut acc);
    acc
}

/// Every fold site in the program: a float arithmetic mnemonic applied to
/// two float literals, at any block depth. The embedding program evaluates
/// each with the host's float arithmetic and records the result bits.
pub fn float_fold_sites(code: &Vec<Token>) -> (r: Vec<(FloatOp, Vec<u8>, Vec<u8>)>)
    ensures
        sites_view(r@) == fold_sites(toks_view(code@)),
{
    let mut acc: Vec<(FloatOp, Vec<u8>, Vec<u8>)> = Vec::new();
    proof {
        assert(sites_view(Seq::<(FloatOp, Vec<u8>, Vec<u8>)>::empty()) + fold_sites(
            toks_view(code@),
        ) =~= fold_sites(toks_view(code@)));
    }
    collect_fold_sites(code, &mut acc);
    acc
}

} // verus!
