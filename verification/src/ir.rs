//! Source text to intermediate representation.
//!
//! The scanner walks the input one character at a time, keeping a 1-indexed
//! `(line, column)` position, folds runs of identical operators into a single
//! opcode with a run count, and checks that `[` and `]` pair up, reporting
//! the position of the offending bracket when they do not.

use vstd::prelude::*;
use vstd::string::StrSliceExecFns;

verus! {

/// One opcode of the intermediate representation.
///
/// `AddVal`/`SubVal` carry an 8-bit run count (cell arithmetic wraps modulo
/// 256, so the count may too); `AddPtr`/`SubPtr` carry a 32-bit run count.
/// `Jz` and `Jnz` are loop begin and end; they pair structurally by position.
#[derive(Clone, Copy, Debug, PartialEq, Eq, Structural)]
pub enum BfIR {
    AddVal(u8),
    SubVal(u8),
    AddPtr(u32),
    SubPtr(u32),
    GetByte,
    PutByte,
    Jz,
    Jnz,
}

/// Which way a bracket failed to pair.
#[derive(Clone, Copy, Debug, PartialEq, Eq, Structural)]
pub enum CompileErrorKind {
    UnclosedLeftBracket,
    UnexpectedRightBracket,
}

/// A bracket-pairing failure at a 1-indexed source position.
#[derive(Clone, Copy, Debug, PartialEq, Eq, Structural)]
pub struct CompileError {
    pub line: u32,
    pub col: u32,
    pub kind: CompileErrorKind,
}

/// The scanner's whole state: emitted opcodes, the positions of the
/// `[` brackets still waiting for their `]`, and the current position.
pub struct ScanState {
    pub code: Seq<BfIR>,
    pub stk: Seq<(u32, u32)>,
    pub line: u32,
    pub col: u32,
}

pub open spec fn inc_u32(x: u32) -> u32 {
    if x == u32::MAX {
        0u32
    } else {
        (x + 1) as u32
    }
}

pub open spec fn inc_u8(x: u8) -> u8 {
    if x == u8::MAX {
        0u8
    } else {
        (x + 1) as u8
    }
}

/// The eight operator characters; everything else is a comment.
pub open spec fn is_op(c: char) -> bool {
    c == '+' || c == '-' || c == '>' || c == '<' || c == ',' || c == '.' || c == '[' || c == ']'
}

/// Append one `+` to the code: bump the run count of a trailing `AddVal`,
/// else start a fresh run of one.
pub open spec fn fold_add_val(code: Seq<BfIR>) -> Seq<BfIR> {
    if code.len() > 0 && code.last() is AddVal {
        code.drop_last().push(BfIR::AddVal(inc_u8(code.last()->AddVal_0)))
    } else {
        code.push(BfIR::AddVal(1))
    }
}

pub open spec fn fold_sub_val(code: Seq<BfIR>) -> Seq<BfIR> {
    if code.len() > 0 && code.last() is SubVal {
        code.drop_last().push(BfIR::SubVal(inc_u8(code.last()->SubVal_0)))
    } else {
        code.push(BfIR::SubVal(1))
    }
}

pub open spec fn fold_add_ptr(code: Seq<BfIR>) -> Seq<BfIR> {
    if code.len() > 0 && code.last() is AddPtr {
        code.drop_last().push(BfIR::AddPtr(inc_u32(code.last()->AddPtr_0)))
    } else {
        code.push(BfIR::AddPtr(1))
    }
}

pub open spec fn fold_sub_ptr(code: Seq<BfIR>) -> Seq<BfIR> {
    if code.len() > 0 && code.last() is SubPtr {
        code.drop_last().push(BfIR::SubPtr(inc_u32(code.last()->SubPtr_0)))
    } else {
        code.push(BfIR::SubPtr(1))
    }
}

/// One character of scanning.  The column is bumped first, so positions are
/// 1-indexed; a newline then resets it to zero and bumps the line.
pub open spec fn scan_step(st: ScanState, c: char) -> Result<ScanState, CompileError> {
    let col = inc_u32(st.col);
    if c == '\n' {
        Ok(ScanState { line: inc_u32(st.line), col: 0u32, ..st })
    } else if c == '+' {
        Ok(ScanState { col, code: fold_add_val(st.code), ..st })
    } else if c == '-' {
        Ok(ScanState { col, code: fold_sub_val(st.code), ..st })
    } else if c == '>' {
        Ok(ScanState { col, code: fold_add_ptr(st.code), ..st })
    } else if c == '<' {
        Ok(ScanState { col, code: fold_sub_ptr(st.code), ..st })
    } else if c == ',' {
        Ok(ScanState { col, code: st.code.push(BfIR::GetByte), ..st })
    } else if c == '.' {
        Ok(ScanState { col, code: st.code.push(BfIR::PutByte), ..st })
    } else if c == '[' {
        Ok(ScanState { col, code: st.code.push(BfIR::Jz), stk: st.stk.push((st.line, col)), ..st })
    } else if c == ']' {
        if st.stk.len() == 0 {
            Err(CompileError { line: st.line, col, kind: CompileErrorKind::UnexpectedRightBracket })
        } else {
            Ok(ScanState { col, code: st.code.push(BfIR::Jnz), stk: st.stk.drop_last(), ..st })
        }
    } else {
        Ok(ScanState { col, ..st })
    }
}

/// End of input: a `[` still waiting for its `]` is an error at the position
/// of the innermost such `[`.
pub open spec fn scan_finish(st: ScanState) -> Result<Seq<BfIR>, CompileError> {
    if st.stk.len() > 0 {
        Err(
            CompileError {
                line: st.stk.last().0,
                col: st.stk.last().1,
                kind: CompileErrorKind::UnclosedLeftBracket,
            },
        )
    } else {
        Ok(st.code)
    }
}

pub open spec fn scan_from(s: Seq<char>, st: ScanState) -> Result<Seq<BfIR>, CompileError>
    decreases s.len(),
{
    if s.len() == 0 {
        scan_finish(st)
    } else {
        match scan_step(st, s.first()) {
            Ok(st2) => scan_from(s.drop_first(), st2),
            Err(e) => Err(e),
        }
    }
}

pub open spec fn init_state() -> ScanState {
    ScanState { code: Seq::empty(), stk: Seq::empty(), line: 1u32, col: 0u32 }
}

/// What `compile` returns, as a function of the source characters alone.
pub open spec fn spec_compile(s: Seq<char>) -> Result<Seq<BfIR>, CompileError> {
    scan_from(s, init_state())
}

/// Parse source text into the folded, bracket-checked opcode sequence.
///
/// The result is exactly `spec_compile` of the input characters; in
/// particular two calls on identical input return identical opcodes.
pub fn compile(src: &str) -> (r: Result<Vec<BfIR>, CompileError>)
    ensures
        match r {
            Ok(code) => spec_compile(src@) == Ok::<Seq<BfIR>, CompileError>(code@),
            Err(e) => spec_compile(src@) == Err::<Seq<BfIR>, CompileError>(e),
        },
{
    let n = src.unicode_len();
    let mut code: Vec<BfIR> = Vec::new();
    let mut stk: Vec<(u32, u32)> = Vec::new();
    let mut line: u32 = 1;
    let mut col: u32 = 0;
    let ghost mut st = init_state();
    let mut i: usize = 0;
    proof {
        assert(src@.skip(0) =~= src@);
    }
    while i < n
        invariant
            i <= n,
            n == src@.len(),
            st.code == code@,
            st.stk == stk@,
            st.line == line,
            st.col == col,
            scan_from(src@.skip(i as int), st) == spec_compile(src@),
        decreases n - i,
    {
        let c = src.get_char(i);
        proof {
            assert(src@.skip(i as int).len() > 0);
            assert(src@.skip(i as int).first() == c);
            assert(src@.skip(i as int).drop_first() =~= src@.skip(i + 1 as int));
        }
        let newcol = if col == u32::MAX {
            0
        } else {
            col + 1
        };
        if c == '\n' {
            line = if line == u32::MAX {
                0
            } else {
                line + 1
            };
            col = 0;
        } else if c == '+' {
            col = newcol;
            let len = code.len();
            let mut folded = false;
            if len > 0 {
                if let BfIR::AddVal(x) = code[len - 1] {
                    let _popped = code.pop();
                    code.push(
                        BfIR::AddVal(
                            if x == 255 {
                                0
                            } else {
                                x + 1
                            },
                        ),
                    );
                    folded = true;
                }
            }
            if !folded {
                code.push(BfIR::AddVal(1));
            }
        } else if c == '-' {
            col = newcol;
            let len = code.len();
            let mut folded = false;
            if len > 0 {
                if let BfIR::SubVal(x) = code[len - 1] {
                    let _popped = code.pop();
                    code.push(
                        BfIR::SubVal(
                            if x == 255 {
                                0
                            } else {
                                x + 1
                            },
                        ),
                    );
                    folded = true;
                }
            }
            if !folded {
                code.push(BfIR::SubVal(1));
            }
        } else if c == '>' {
            col = newcol;
            let len = code.len();
            let mut folded = false;
            if len > 0 {
                if let BfIR::AddPtr(x) = code[len - 1] {
                    let _popped = code.pop();
                    code.push(
                        BfIR::AddPtr(
                            if x == u32::MAX {
                                0
                            } else {
                                x + 1
                            },
                        ),
                    );
                    folded = true;
                }
            }
            if !folded {
                code.push(BfIR::AddPtr(1));
            }
        } else if c == '<' {
            col = newcol;
            let len = code.len();
            let mut folded = false;
            if len > 0 {
                if let BfIR::SubPtr(x) = code[len - 1] {
                    let _popped = code.pop();
                    code.push(
                        BfIR::SubPtr(
                            if x == u32::MAX {
                                0
                            } else {
                                x + 1
                            },
                        ),
                    );
                    folded = true;
                }
            }
            if !folded {
                code.push(BfIR::SubPtr(1));
            }
        } else if c == ',' {
            col = newcol;
            code.push(BfIR::GetByte);
        } else if c == '.' {
            col = newcol;
            code.push(BfIR::PutByte);
        } else if c == '[' {
            stk.push((line, newcol));
            col = newcol;
            code.push(BfIR::Jz);
        } else if c == ']' {
            if stk.len() == 0 {
                return Err(
                    CompileError {
                        line,
                        col: newcol,
                        kind: CompileErrorKind::UnexpectedRightBracket,
                    },
                );
            }
            let _popped = stk.pop();
            col = newcol;
            code.push(BfIR::Jnz);
        } else {
            col = newcol;
        }
        proof {
            st = scan_step(st, c)->Ok_0;
        }
        i = i + 1;
    }
    proof {
        assert(src@.skip(n as int) =~= Seq::<char>::empty());
    }
    if stk.len() > 0 {
        let top = stk[stk.len() - 1];
        Err(CompileError { line: top.0, col: top.1, kind: CompileErrorKind::UnclosedLeftBracket })
    } else {
        Ok(code)
    }
}

/// How many `Jz` opcodes a sequence holds.
pub open spec fn cnt_jz(ir: Seq<BfIR>) -> nat
    decreases ir.len(),
{
    if ir.len() == 0 {
        0nat
    } else {
        cnt_jz(ir.drop_last()) + if ir.last() is Jz {
            1nat
        } else {
            0nat
        }
    }
}

/// How many `Jnz` opcodes a sequence holds.
pub open spec fn cnt_jnz(ir: Seq<BfIR>) -> nat
    decreases ir.len(),
{
    if ir.len() == 0 {
        0nat
    } else {
        cnt_jnz(ir.drop_last()) + if ir.last() is Jnz {
            1nat
        } else {
            0nat
        }
    }
}

/// No prefix closes more loops than it has opened.
pub open spec fn prefix_ok(ir: Seq<BfIR>) -> bool {
    forall|i: int| 0 <= i <= ir.len() ==> cnt_jnz(#[trigger] ir.take(i)) <= cnt_jz(ir.take(i))
}

/// `Jz` and `Jnz` form a balanced, properly nested bracket sequence:
/// equally many of each, and no prefix closes a loop it has not opened.
pub open spec fn balanced(ir: Seq<BfIR>) -> bool {
    prefix_ok(ir) && cnt_jz(ir) == cnt_jnz(ir)
}

/// Whether two opcodes are the same run-length-folding variant.
pub open spec fn same_fold_kind(a: BfIR, b: BfIR) -> bool {
    ||| (a is AddVal && b is AddVal)
    ||| (a is SubVal && b is SubVal)
    ||| (a is AddPtr && b is AddPtr)
    ||| (a is SubPtr && b is SubPtr)
}

/// Folding is maximal: no two adjacent opcodes are the same folding variant.
pub open spec fn max_folded(ir: Seq<BfIR>) -> bool {
    forall|i: int| 0 <= i < ir.len() - 1 ==> !same_fold_kind(#[trigger] ir[i], ir[i + 1])
}

/// The scanner's running invariant: the bracket stack depth equals the
/// surplus of opened over closed loops, prefixes never close too early,
/// and the code so far is maximally folded.
pub open spec fn scan_inv(st: ScanState) -> bool {
    &&& st.stk.len() + cnt_jnz(st.code) == cnt_jz(st.code)
    &&& prefix_ok(st.code)
    &&& max_folded(st.code)
}

pub(crate) proof fn lemma_cnt_push(s: Seq<BfIR>, x: BfIR)
    ensures
        cnt_jz(s.push(x)) == cnt_jz(s) + if x is Jz {
            1nat
        } else {
            0nat
        },
        cnt_jnz(s.push(x)) == cnt_jnz(s) + if x is Jnz {
            1nat
        } else {
            0nat
        },
{
    assert(s.push(x).drop_last() =~= s);
}

proof fn lemma_take_push(s: Seq<BfIR>, x: BfIR, i: int)
    requires
        0 <= i <= s.len(),
    ensures
        s.push(x).take(i) =~= s.take(i),
{
}

proof fn lemma_take_replace_last(s: Seq<BfIR>, y: BfIR, i: int)
    requires
        s.len() > 0,
        0 <= i <= s.len() - 1,
    ensures
        s.drop_last().push(y).take(i) =~= s.take(i),
{
}

proof fn lemma_push_keeps_inv(st: ScanState, x: BfIR)
    requires
        scan_inv(st),
        !(x is Jz),
        !(x is Jnz),
        st.code.len() > 0 ==> !same_fold_kind(st.code.last(), x),
    ensures
        scan_inv(ScanState { code: st.code.push(x), ..st }),
{
    lemma_cnt_push(st.code, x);
    let c2 = st.code.push(x);
    assert forall|i: int| 0 <= i <= c2.len() implies cnt_jnz(#[trigger] c2.take(i)) <= cnt_jz(
        c2.take(i),
    ) by {
        if i <= st.code.len() {
            lemma_take_push(st.code, x, i);
        } else {
            assert(c2.take(i) =~= c2);
        }
    }
    assert forall|i: int| 0 <= i < c2.len() - 1 implies !same_fold_kind(
        #[trigger] c2[i],
        c2[i + 1],
    ) by {}
}

proof fn lemma_replace_last_keeps_inv(st: ScanState, y: BfIR)
    requires
        scan_inv(st),
        st.code.len() > 0,
        same_fold_kind(st.code.last(), y),
        !(y is Jz),
        !(y is Jnz),
    ensures
        scan_inv(ScanState { code: st.code.drop_last().push(y), ..st }),
{
    let s = st.code;
    let c2 = s.drop_last().push(y);
    assert(!(s.last() is Jz) && !(s.last() is Jnz));
    lemma_cnt_push(s.drop_last(), y);
    assert(cnt_jz(c2) == cnt_jz(s) && cnt_jnz(c2) == cnt_jnz(s));
    assert forall|i: int| 0 <= i <= c2.len() implies cnt_jnz(#[trigger] c2.take(i)) <= cnt_jz(
        c2.take(i),
    ) by {
        if i <= s.len() - 1 {
            lemma_take_replace_last(s, y, i);
        } else {
            assert(c2.take(i) =~= c2);
        }
    }
    assert forall|i: int| 0 <= i < c2.len() - 1 implies !same_fold_kind(
        #[trigger] c2[i],
        c2[i + 1],
    ) by {
        if i < c2.len() - 2 {
            assert(c2[i] == s[i] && c2[i + 1] == s[i + 1]);
        } else {
            assert(c2[i] == s[i] && c2[i + 1] == y);
            assert(!same_fold_kind(s[i], s[i + 1]));
        }
    }
}

proof fn lemma_bracket_push_keeps_inv(st: ScanState, x: BfIR)
    requires
        scan_inv(st),
        x is Jz || x is Jnz,
        x is Jnz ==> st.stk.len() > 0,
    ensures
        x is Jnz ==> scan_inv(ScanState { code: st.code.push(x), stk: st.stk.drop_last(), ..st }),
        forall|p: (u32, u32)|
            x is Jz ==> scan_inv(
                ScanState { code: st.code.push(x), stk: #[trigger] st.stk.push(p), ..st },
            ),
{
    lemma_cnt_push(st.code, x);
    let c2 = st.code.push(x);
    assert forall|i: int| 0 <= i <= c2.len() implies cnt_jnz(#[trigger] c2.take(i)) <= cnt_jz(
        c2.take(i),
    ) by {
        if i <= st.code.len() {
            lemma_take_push(st.code, x, i);
        } else {
            assert(c2.take(i) =~= c2);
        }
    }
    assert forall|i: int| 0 <= i < c2.len() - 1 implies !same_fold_kind(
        #[trigger] c2[i],
        c2[i + 1],
    ) by {}
}

proof fn lemma_step_keeps_inv(st: ScanState, c: char)
    requires
        scan_inv(st),
        scan_step(st, c) is Ok,
    ensures
        scan_inv(scan_step(st, c)->Ok_0),
{
    let st2 = scan_step(st, c)->Ok_0;
    if c == '\n' {
    } else if c == '+' {
        if st.code.len() > 0 && st.code.last() is AddVal {
            lemma_replace_last_keeps_inv(st, BfIR::AddVal(inc_u8(st.code.last()->AddVal_0)));
        } else {
            lemma_push_keeps_inv(st, BfIR::AddVal(1));
        }
    } else if c == '-' {
        if st.code.len() > 0 && st.code.last() is SubVal {
            lemma_replace_last_keeps_inv(st, BfIR::SubVal(inc_u8(st.code.last()->SubVal_0)));
        } else {
            lemma_push_keeps_inv(st, BfIR::SubVal(1));
        }
    } else if c == '>' {
        if st.code.len() > 0 && st.code.last() is AddPtr {
            lemma_replace_last_keeps_inv(st, BfIR::AddPtr(inc_u32(st.code.last()->AddPtr_0)));
        } else {
            lemma_push_keeps_inv(st, BfIR::AddPtr(1));
        }
    } else if c == '<' {
        if st.code.len() > 0 && st.code.last() is SubPtr {
            lemma_replace_last_keeps_inv(st, BfIR::SubPtr(inc_u32(st.code.last()->SubPtr_0)));
        } else {
            lemma_push_keeps_inv(st, BfIR::SubPtr(1));
        }
    } else if c == ',' {
        lemma_push_keeps_inv(st, BfIR::GetByte);
    } else if c == '.' {
        lemma_push_keeps_inv(st, BfIR::PutByte);
    } else if c == '[' {
        lemma_bracket_push_keeps_inv(st, BfIR::Jz);
    } else if c == ']' {
        lemma_bracket_push_keeps_inv(st, BfIR::Jnz);
    } else {
    }
}

proof fn lemma_scan_from_invariants(s: Seq<char>, st: ScanState)
    requires
        scan_inv(st),
        scan_from(s, st) is Ok,
    ensures
        balanced(scan_from(s, st)->Ok_0),
        max_folded(scan_from(s, st)->Ok_0),
    decreases s.len(),
{
    if s.len() == 0 {
    } else {
        lemma_step_keeps_inv(st, s.first());
        lemma_scan_from_invariants(s.drop_first(), scan_step(st, s.first())->Ok_0);
    }
}

proof fn lemma_init_inv()
    ensures
        scan_inv(init_state()),
{
    let st = init_state();
    assert forall|i: int| 0 <= i <= st.code.len() implies cnt_jnz(#[trigger] st.code.take(i))
        <= cnt_jz(st.code.take(i)) by {
        assert(st.code.take(i) =~= st.code);
    }
}

/// Law: in compiled code, `Jz` and `Jnz` occur equally often and are
/// properly nested: no prefix closes a loop it has not opened.
pub proof fn lemma_compile_balanced(s: Seq<char>, ir: Seq<BfIR>)
    requires
        spec_compile(s) == Ok::<Seq<BfIR>, CompileError>(ir),
    ensures
        balanced(ir),
{
    lemma_init_inv();
    lemma_scan_from_invariants(s, init_state());
}

/// Law: run-length folding is maximal: compiled code never holds two
/// adjacent opcodes of the same folding variant.
pub proof fn lemma_compile_max_folded(s: Seq<char>, ir: Seq<BfIR>)
    requires
        spec_compile(s) == Ok::<Seq<BfIR>, CompileError>(ir),
    ensures
        max_folded(ir),
{
    lemma_init_inv();
    lemma_scan_from_invariants(s, init_state());
}

proof fn lemma_scan_from_no_ops(s: Seq<char>, st: ScanState)
    requires
        forall|i: int| 0 <= i < s.len() ==> !is_op(#[trigger] s[i]),
        st.stk.len() == 0,
    ensures
        scan_from(s, st) == Ok::<Seq<BfIR>, CompileError>(st.code),
    decreases s.len(),
{
    if s.len() == 0 {
    } else {
        let st2 = scan_step(st, s.first())->Ok_0;
        assert(st2.code == st.code && st2.stk == st.stk);
        assert forall|i: int| 0 <= i < s.drop_first().len() implies !is_op(
            #[trigger] s.drop_first()[i],
        ) by {
            assert(s.drop_first()[i] == s[i + 1]);
        }
        lemma_scan_from_no_ops(s.drop_first(), st2);
    }
}

/// Law: a source of comment characters alone compiles to the empty
/// opcode sequence.
pub proof fn lemma_comments_only_empty(s: Seq<char>)
    requires
        forall|i: int| 0 <= i < s.len() ==> !is_op(#[trigger] s[i]),
    ensures
        spec_compile(s) == Ok::<Seq<BfIR>, CompileError>(Seq::<BfIR>::empty()),
{
    lemma_scan_from_no_ops(s, init_state());
}

/// The subsequence of operator characters, comments stripped.
pub open spec fn ops_only(s: Seq<char>) -> Seq<char>
    decreases s.len(),
{
    if s.len() == 0 {
        Seq::empty()
    } else if is_op(s.first()) {
        seq![s.first()] + ops_only(s.drop_first())
    } else {
        ops_only(s.drop_first())
    }
}

proof fn lemma_scan_strip(s: Seq<char>, st1: ScanState, st2: ScanState)
    requires
        st1.code == st2.code,
        st1.stk.len() == st2.stk.len(),
        scan_from(s, st1) is Ok,
    ensures
        scan_from(ops_only(s), st2) == scan_from(s, st1),
    decreases s.len(),
{
    if s.len() == 0 {
    } else {
        let c = s.first();
        let st1n = scan_step(st1, c)->Ok_0;
        if !is_op(c) {
            assert(st1n.code == st1.code && st1n.stk == st1.stk);
            lemma_scan_strip(s.drop_first(), st1n, st2);
        } else {
            let t = seq![c] + ops_only(s.drop_first());
            assert(t.first() == c);
            assert(t.drop_first() =~= ops_only(s.drop_first()));
            let st2n = scan_step(st2, c)->Ok_0;
            assert(scan_step(st1, c) is Ok);
            assert(scan_step(st2, c) is Ok);
            assert(st1n.code == st2n.code && st1n.stk.len() == st2n.stk.len());
            lemma_scan_strip(s.drop_first(), st1n, st2n);
        }
    }
}

/// Law: comments and whitespace never change the compiled opcodes: a
/// source that compiles cleanly compiles to the same opcodes as its
/// operator characters alone.
pub proof fn lemma_comments_never_change_ir(s: Seq<char>)
    requires
        spec_compile(s) is Ok,
    ensures
        spec_compile(ops_only(s)) == spec_compile(s),
{
    lemma_scan_strip(s, init_state(), init_state());
}

/// Law: two cleanly compiling sources with the same operator characters
/// compile to the same opcodes, whatever comments surround them.
pub proof fn lemma_same_ops_same_ir(s1: Seq<char>, s2: Seq<char>)
    requires
        spec_compile(s1) is Ok,
        spec_compile(s2) is Ok,
        ops_only(s1) == ops_only(s2),
    ensures
        spec_compile(s1) == spec_compile(s2),
{
    lemma_comments_never_change_ir(s1);
    lemma_comments_never_change_ir(s2);
}

/// The operator character an opcode prints as.
pub open spec fn op_char(op: BfIR) -> char {
    match op {
        BfIR::AddVal(_) => '+',
        BfIR::SubVal(_) => '-',
        BfIR::AddPtr(_) => '>',
        BfIR::SubPtr(_) => '<',
        BfIR::GetByte => ',',
        BfIR::PutByte => '.',
        BfIR::Jz => '[',
        BfIR::Jnz => ']',
    }
}

/// How many times an opcode's character prints: its run count, or one.
pub open spec fn op_count(op: BfIR) -> nat {
    match op {
        BfIR::AddVal(n) => n as nat,
        BfIR::SubVal(n) => n as nat,
        BfIR::AddPtr(n) => n as nat,
        BfIR::SubPtr(n) => n as nat,
        _ => 1nat,
    }
}

pub open spec fn rep(c: char, n: nat) -> Seq<char>
    decreases n,
{
    if n == 0 {
        Seq::empty()
    } else {
        seq![c] + rep(c, (n - 1) as nat)
    }
}

pub open spec fn print_op(op: BfIR) -> Seq<char> {
    rep(op_char(op), op_count(op))
}

/// The canonical source text of an opcode sequence: each opcode as its
/// character, repeated by its run count.
pub open spec fn print_ir(ir: Seq<BfIR>) -> Seq<char>
    decreases ir.len(),
{
    if ir.len() == 0 {
        Seq::empty()
    } else {
        print_op(ir.first()) + print_ir(ir.drop_first())
    }
}

/// No opcode carries a run count of zero (a run of 256 `+` wraps to zero
/// and would print as nothing).
pub open spec fn counts_positive(ir: Seq<BfIR>) -> bool {
    forall|i: int| 0 <= i < ir.len() ==> op_count(#[trigger] ir[i]) >= 1
}

/// Scanning that stops at the end of a chunk instead of finishing.
pub open spec fn scan_chunk(s: Seq<char>, st: ScanState) -> Result<ScanState, CompileError>
    decreases s.len(),
{
    if s.len() == 0 {
        Ok(st)
    } else {
        match scan_step(st, s.first()) {
            Ok(st2) => scan_chunk(s.drop_first(), st2),
            Err(e) => Err(e),
        }
    }
}

proof fn lemma_scan_concat(a: Seq<char>, b: Seq<char>, st: ScanState)
    ensures
        scan_from(a + b, st) == (match scan_chunk(a, st) {
            Ok(st2) => scan_from(b, st2),
            Err(e) => Err(e),
        }),
    decreases a.len(),
{
    if a.len() == 0 {
        assert(a + b =~= b);
    } else {
        assert((a + b).len() > 0);
        assert((a + b).first() == a.first());
        match scan_step(st, a.first()) {
            Ok(st2) => {
                assert((a + b).drop_first() =~= a.drop_first() + b);
                lemma_scan_concat(a.drop_first(), b, st2);
            },
            Err(e) => {},
        }
    }
}

/// A foldable operator character.
pub open spec fn fold_char(c: char) -> bool {
    c == '+' || c == '-' || c == '>' || c == '<'
}

/// The opcode a run of `n` characters `c` folds into.
pub open spec fn run_op(c: char, n: nat) -> BfIR {
    if c == '+' {
        BfIR::AddVal(n as u8)
    } else if c == '-' {
        BfIR::SubVal(n as u8)
    } else if c == '>' {
        BfIR::AddPtr(n as u32)
    } else {
        BfIR::SubPtr(n as u32)
    }
}

pub open spec fn max_run(c: char) -> nat {
    if c == '+' || c == '-' {
        255nat
    } else {
        0xFFFF_FFFFnat
    }
}

proof fn lemma_scan_run(c: char, st: ScanState, m: nat, n: nat)
    requires
        fold_char(c),
        st.code.len() > 0,
        st.code.last() == run_op(c, m),
        1 <= m,
        m + n <= max_run(c),
    ensures
        scan_chunk(rep(c, n), st) is Ok,
        scan_chunk(rep(c, n), st)->Ok_0.code == st.code.drop_last().push(run_op(c, m + n)),
        scan_chunk(rep(c, n), st)->Ok_0.stk == st.stk,
    decreases n,
{
    if n == 0 {
        assert(st.code.drop_last().push(run_op(c, m)) =~= st.code);
    } else {
        assert(rep(c, n).first() == c);
        assert(rep(c, n).drop_first() =~= rep(c, (n - 1) as nat));
        let st2 = scan_step(st, c)->Ok_0;
        assert(st2.code == st.code.drop_last().push(run_op(c, m + 1)));
        assert(st2.stk == st.stk);
        assert(st2.code.last() == run_op(c, m + 1));
        assert(st2.code.drop_last() =~= st.code.drop_last());
        lemma_scan_run(c, st2, m + 1, (n - 1) as nat);
    }
}

proof fn lemma_scan_print_op(op: BfIR, st: ScanState)
    requires
        op_count(op) >= 1,
        st.code.len() > 0 ==> !same_fold_kind(st.code.last(), op),
        op is Jnz ==> st.stk.len() > 0,
    ensures
        scan_chunk(print_op(op), st) is Ok,
        scan_chunk(print_op(op), st)->Ok_0.code == st.code.push(op),
        op is Jz ==> scan_chunk(print_op(op), st)->Ok_0.stk.len() == st.stk.len() + 1,
        op is Jnz ==> scan_chunk(print_op(op), st)->Ok_0.stk.len() == st.stk.len() - 1,
        !(op is Jz) && !(op is Jnz) ==> scan_chunk(print_op(op), st)->Ok_0.stk == st.stk,
{
    let c = op_char(op);
    let n = op_count(op);
    assert(print_op(op) == rep(c, n));
    assert(rep(c, n).first() == c);
    assert(rep(c, n).drop_first() =~= rep(c, (n - 1) as nat));
    match op {
        BfIR::AddVal(x) => {
            let st2 = scan_step(st, c)->Ok_0;
            assert(st2.code == st.code.push(run_op(c, 1)));
            lemma_scan_run(c, st2, 1, (n - 1) as nat);
            assert(st2.code.drop_last() =~= st.code);
            assert(run_op(c, n) == op);
        },
        BfIR::SubVal(x) => {
            let st2 = scan_step(st, c)->Ok_0;
            assert(st2.code == st.code.push(run_op(c, 1)));
            lemma_scan_run(c, st2, 1, (n - 1) as nat);
            assert(st2.code.drop_last() =~= st.code);
            assert(run_op(c, n) == op);
        },
        BfIR::AddPtr(x) => {
            let st2 = scan_step(st, c)->Ok_0;
            assert(st2.code == st.code.push(run_op(c, 1)));
            lemma_scan_run(c, st2, 1, (n - 1) as nat);
            assert(st2.code.drop_last() =~= st.code);
            assert(run_op(c, n) == op);
        },
        BfIR::SubPtr(x) => {
            let st2 = scan_step(st, c)->Ok_0;
            assert(st2.code == st.code.push(run_op(c, 1)));
            lemma_scan_run(c, st2, 1, (n - 1) as nat);
            assert(st2.code.drop_last() =~= st.code);
            assert(run_op(c, n) == op);
        },
        _ => {
            assert(rep(c, (n - 1) as nat) =~= Seq::<char>::empty());
        },
    }
}

proof fn lemma_print_ir_scan(ir: Seq<BfIR>, k: int, st: ScanState)
    requires
        balanced(ir),
        max_folded(ir),
        counts_positive(ir),
        0 <= k <= ir.len(),
        st.code == ir.take(k),
        st.stk.len() + cnt_jnz(ir.take(k)) == cnt_jz(ir.take(k)),
    ensures
        scan_from(print_ir(ir.skip(k)), st) == Ok::<Seq<BfIR>, CompileError>(ir),
    decreases ir.len() - k,
{
    if k == ir.len() {
        assert(ir.take(k) =~= ir);
        assert(ir.skip(k) =~= Seq::<BfIR>::empty());
    } else {
        let op = ir[k];
        let tail = ir.skip(k);
        assert(tail.first() == op);
        assert(tail.drop_first() =~= ir.skip(k + 1));
        assert(print_ir(tail) == print_op(op) + print_ir(ir.skip(k + 1)));
        lemma_scan_concat(print_op(op), print_ir(ir.skip(k + 1)), st);
        assert(ir.take(k + 1) =~= ir.take(k).push(op));
        lemma_cnt_push(ir.take(k), op);
        if st.code.len() > 0 {
            assert(st.code.last() == ir[k - 1]);
            assert(!same_fold_kind(ir[k - 1], ir[k]));
        }
        if op is Jnz {
            assert(cnt_jnz(ir.take(k + 1)) <= cnt_jz(ir.take(k + 1)));
        }
        lemma_scan_print_op(op, st);
        let st2 = scan_chunk(print_op(op), st)->Ok_0;
        assert(st2.code == ir.take(k + 1));
        lemma_print_ir_scan(ir, k + 1, st2);
    }
}

/// Law: parsing, pretty-printing to canonical source, and re-parsing is the
/// identity on opcode sequences that are balanced, maximally folded, and
/// free of zero run counts.
pub proof fn lemma_print_parse_round_trip(ir: Seq<BfIR>)
    requires
        balanced(ir),
        max_folded(ir),
        counts_positive(ir),
    ensures
        spec_compile(print_ir(ir)) == Ok::<Seq<BfIR>, CompileError>(ir),
{
    assert(ir.skip(0) =~= ir);
    assert(ir.take(0) =~= Seq::<BfIR>::empty());
    lemma_print_ir_scan(ir, 0, init_state());
}

/// Law: a compiled opcode sequence without zero run counts re-compiles to
/// itself from its canonical printed form.
pub proof fn lemma_compile_round_trip(s: Seq<char>, ir: Seq<BfIR>)
    requires
        spec_compile(s) == Ok::<Seq<BfIR>, CompileError>(ir),
        counts_positive(ir),
    ensures
        spec_compile(print_ir(ir)) == spec_compile(s),
{
    lemma_compile_balanced(s, ir);
    lemma_compile_max_folded(s, ir);
    lemma_print_parse_round_trip(ir);
}

} // verus!
