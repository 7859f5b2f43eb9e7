//! Opcode sequence to x86-64 machine code.
//!
//! `assemble` lowers a folded opcode sequence into the bytes of one native
//! function in the System V AMD64 convention.  The function takes a context
//! pointer, the tape start and the tape end; it keeps the live tape pointer
//! in `rcx`, checks every pointer move against the tape bounds, calls host
//! callbacks (whose addresses are materialized as immediates) for the two
//! I/O opcodes, and returns a null pointer on success or an error pointer
//! handed back by a callback.  Loops become a forward and a backward
//! conditional jump paired by the bracket structure of the opcodes.
//!
//! Everything here is pure: the caller owns executable memory and the call
//! into the emitted bytes.

use vstd::prelude::*;
use crate::ir::BfIR;
use crate::ir::balanced;
use crate::ir::cnt_jz;
use crate::ir::cnt_jnz;

verus! {

/// An opcode sequence the code generator refuses: loops that do not pair,
/// or a program too long for 32-bit relative jumps.
#[derive(Clone, Copy, Debug, PartialEq, Eq, Structural)]
pub enum AssemblerError {
    Unbalanced,
    TooLarge,
}

/// How many bytes the block for one opcode occupies.
pub open spec fn block_len(op: BfIR) -> nat {
    match op {
        BfIR::AddVal(_) => 3nat,
        BfIR::SubVal(_) => 3nat,
        BfIR::AddPtr(_) => 22nat,
        BfIR::SubPtr(_) => 22nat,
        BfIR::GetByte => 34nat,
        BfIR::PutByte => 34nat,
        BfIR::Jz => 9nat,
        BfIR::Jnz => 9nat,
    }
}

/// Total length of the blocks for the first `i` opcodes.
pub open spec fn body_len_upto(ir: Seq<BfIR>, i: int) -> nat
    decreases i,
{
    if i <= 0 {
        0nat
    } else {
        body_len_upto(ir, i - 1) + block_len(ir[i - 1])
    }
}

pub open spec fn body_len(ir: Seq<BfIR>) -> nat {
    body_len_upto(ir, ir.len() as int)
}

/// Offset of the block for opcode `i`; the 13-byte prologue comes first.
pub open spec fn block_pos(ir: Seq<BfIR>, i: int) -> int {
    13 + body_len_upto(ir, i) as int
}

/// Offset of the pointer-overflow handler, inside the epilogue.
pub open spec fn overflow_pos(ir: Seq<BfIR>) -> int {
    13 + body_len(ir) + 8 as int
}

/// Offset of the shared exit sequence, which the I/O error path jumps to.
pub open spec fn exit_pos(ir: Seq<BfIR>) -> int {
    13 + body_len(ir) + 25 as int
}

/// Length of the whole emitted function.
pub open spec fn total_len(ir: Seq<BfIR>) -> int {
    13 + body_len(ir) + 27 as int
}

/// Every offset must fit a 32-bit relative jump.
pub open spec fn fits(ir: Seq<BfIR>) -> bool {
    total_len(ir) <= 0x7FFF_FFFF
}

/// Pair the brackets left to right with a stack: `i` is the next opcode,
/// `stk` the indices of the `Jz` still open, `m` the pairs found so far,
/// both ways.  `None` when a `Jnz` finds no open `Jz` or a `Jz` is never
/// closed.
pub open spec fn spec_match(ir: Seq<BfIR>, i: int, stk: Seq<int>, m: Map<int, int>) -> Option<
    Map<int, int>,
>
    decreases ir.len() - i,
{
    if i < 0 || i >= ir.len() {
        if stk.len() == 0 {
            Some(m)
        } else {
            None
        }
    } else {
        match ir[i] {
            BfIR::Jz => spec_match(ir, i + 1, stk.push(i), m),
            BfIR::Jnz => if stk.len() == 0 {
                None
            } else {
                spec_match(
                    ir,
                    i + 1,
                    stk.drop_last(),
                    m.insert(stk.last(), i).insert(i, stk.last()),
                )
            },
            _ => spec_match(ir, i + 1, stk, m),
        }
    }
}

/// The bracket pairing of a whole sequence, if it is balanced.
pub open spec fn match_map(ir: Seq<BfIR>) -> Option<Map<int, int>> {
    spec_match(ir, 0, Seq::empty(), Map::empty())
}

/// The four bytes of `v`, least significant first; `v` in `[0, 2^32)`.
pub open spec fn le32(v: int) -> Seq<u8> {
    seq![
        (v % 256) as u8,
        ((v / 0x100) % 256) as u8,
        ((v / 0x10000) % 256) as u8,
        ((v / 0x1000000) % 256) as u8,
    ]
}

/// The eight bytes of `v`, least significant first; `v` in `[0, 2^64)`.
pub open spec fn le64(v: int) -> Seq<u8> {
    seq![
        (v % 256) as u8,
        ((v / 0x100) % 256) as u8,
        ((v / 0x10000) % 256) as u8,
        ((v / 0x1000000) % 256) as u8,
        ((v / 0x100000000) % 256) as u8,
        ((v / 0x10000000000) % 256) as u8,
        ((v / 0x1000000000000) % 256) as u8,
        ((v / 0x100000000000000) % 256) as u8,
    ]
}

/// A 32-bit relative displacement, from the end of the jump instruction to
/// its target, in two's complement.
pub open spec fn rel32(target: int, after: int) -> Seq<u8> {
    if target >= after {
        le32(target - after)
    } else {
        le32(target - after + 0x100000000)
    }
}

/// `push rax`; `mov r12, rdi`; `mov r13, rsi`; `mov r14, rdx`;
/// `mov rcx, rsi`: save the context, the tape bounds, and start the tape
/// pointer at the tape's first cell.
pub open spec fn prologue() -> Seq<u8> {
    seq![
        0x50u8,
        0x49u8, 0x89u8, 0xFCu8,
        0x49u8, 0x89u8, 0xF5u8,
        0x49u8, 0x89u8, 0xD6u8,
        0x48u8, 0x89u8, 0xF1u8,
    ]
}

/// `xor rax, rax`; `jmp exit`; the overflow handler (`mov rax, imm64`;
/// `call rax`; `jmp exit`); then the shared exit: `pop rdx`; `ret`.
/// The I/O error path jumps straight to the exit with the callback's
/// error pointer already in `rax`.
pub open spec fn epilogue(overflow_addr: u64) -> Seq<u8> {
    seq![0x48u8, 0x31u8, 0xC0u8, 0xE9u8] + le32(17) + seq![0x48u8, 0xB8u8] + le64(
        overflow_addr as int,
    ) + seq![0xFFu8, 0xD0u8, 0xE9u8] + le32(0) + seq![0x5Au8, 0xC3u8]
}

/// `add rcx, imm32`; `jc overflow`; `cmp rcx, r14`; `jnb overflow`:
/// advance the tape pointer and fail past the tape's end.
pub open spec fn add_ptr_block(x: u32, p: int, ovf: int) -> Seq<u8> {
    seq![0x48u8, 0x81u8, 0xC1u8] + le32(x as int) + seq![0x0Fu8, 0x82u8] + rel32(ovf, p + 13)
        + seq![0x4Cu8, 0x39u8, 0xF1u8, 0x0Fu8, 0x83u8] + rel32(ovf, p + 22)
}

/// `sub rcx, imm32`; `jc overflow`; `cmp rcx, r13`; `jb overflow`:
/// retreat the tape pointer and fail before the tape's start.
pub open spec fn sub_ptr_block(x: u32, p: int, ovf: int) -> Seq<u8> {
    seq![0x48u8, 0x81u8, 0xE9u8] + le32(x as int) + seq![0x0Fu8, 0x82u8] + rel32(ovf, p + 13)
        + seq![0x4Cu8, 0x39u8, 0xE9u8, 0x0Fu8, 0x82u8] + rel32(ovf, p + 22)
}

/// Spill the tape pointer, call the callback with the context and the
/// pointer, jump to the exit if it returned an error pointer, restore:
/// `mov r15, rcx`; `mov rdi, r12`; `mov rsi, rcx`; `mov rax, imm64`;
/// `call rax`; `cmp rax, 0`; `jnz exit`; `mov rcx, r15`.
pub open spec fn io_block(addr: u64, p: int, exitp: int) -> Seq<u8> {
    seq![
        0x49u8, 0x89u8, 0xCFu8,
        0x4Cu8, 0x89u8, 0xE7u8,
        0x48u8, 0x89u8, 0xCEu8,
        0x48u8, 0xB8u8,
    ] + le64(addr as int) + seq![0xFFu8, 0xD0u8, 0x48u8, 0x83u8, 0xF8u8, 0x00u8, 0x0Fu8, 0x85u8]
        + rel32(exitp, p + 31) + seq![0x4Cu8, 0x89u8, 0xF9u8]
}

/// `cmp byte [rcx], 0`; `jz right`: skip the loop when the cell is zero.
/// `right` is the offset just past the matching `Jnz` block.
pub open spec fn jz_block(p: int, right: int) -> Seq<u8> {
    seq![0x80u8, 0x39u8, 0x00u8, 0x0Fu8, 0x84u8] + rel32(right, p + 9)
}

/// `cmp byte [rcx], 0`; `jnz left`: repeat the loop while the cell is
/// nonzero.  `left` is the offset just past the matching `Jz` block.
pub open spec fn jnz_block(p: int, left: int) -> Seq<u8> {
    seq![0x80u8, 0x39u8, 0x00u8, 0x0Fu8, 0x85u8] + rel32(left, p + 9)
}

/// The bytes of the block for opcode `i`, at its place in the program.
pub open spec fn spec_block(
    ir: Seq<BfIR>,
    i: int,
    getbyte_addr: u64,
    putbyte_addr: u64,
) -> Seq<u8> {
    match ir[i] {
        BfIR::AddVal(x) => seq![0x80u8, 0x01u8, x],
        BfIR::SubVal(x) => seq![0x80u8, 0x29u8, x],
        BfIR::AddPtr(x) => add_ptr_block(x, block_pos(ir, i), overflow_pos(ir)),
        BfIR::SubPtr(x) => sub_ptr_block(x, block_pos(ir, i), overflow_pos(ir)),
        BfIR::GetByte => io_block(getbyte_addr, block_pos(ir, i), exit_pos(ir)),
        BfIR::PutByte => io_block(putbyte_addr, block_pos(ir, i), exit_pos(ir)),
        BfIR::Jz => jz_block(
            block_pos(ir, i),
            block_pos(ir, match_map(ir)->Some_0[i]) + 9,
        ),
        BfIR::Jnz => jnz_block(
            block_pos(ir, i),
            block_pos(ir, match_map(ir)->Some_0[i]) + 9,
        ),
    }
}

/// The blocks for the first `i` opcodes, concatenated.
pub open spec fn blocks_upto(
    ir: Seq<BfIR>,
    i: int,
    getbyte_addr: u64,
    putbyte_addr: u64,
) -> Seq<u8>
    decreases i,
{
    if i <= 0 {
        Seq::empty()
    } else {
        blocks_upto(ir, i - 1, getbyte_addr, putbyte_addr) + spec_block(
            ir,
            i - 1,
            getbyte_addr,
            putbyte_addr,
        )
    }
}

/// The whole emitted function, byte for byte.  Meaningful when the
/// brackets pair (`match_map` is `Some`); entry is at offset zero.
pub open spec fn spec_program(
    ir: Seq<BfIR>,
    getbyte_addr: u64,
    putbyte_addr: u64,
    overflow_addr: u64,
) -> Seq<u8> {
    prologue() + blocks_upto(ir, ir.len() as int, getbyte_addr, putbyte_addr) + epilogue(
        overflow_addr,
    )
}

fn push_le32(out: &mut Vec<u8>, v: u32)
    ensures
        final(out)@ == old(out)@ + le32(v as int),
{
    out.push((v % 256) as u8);
    out.push(((v / 0x100) % 256) as u8);
    out.push(((v / 0x10000) % 256) as u8);
    out.push(((v / 0x1000000) % 256) as u8);
    proof {
        assert(out@ =~= old(out)@ + le32(v as int));
    }
}

fn push_le64(out: &mut Vec<u8>, v: u64)
    ensures
        final(out)@ == old(out)@ + le64(v as int),
{
    out.push((v % 256) as u8);
    out.push(((v / 0x100) % 256) as u8);
    out.push(((v / 0x10000) % 256) as u8);
    out.push(((v / 0x1000000) % 256) as u8);
    out.push(((v / 0x100000000) % 256) as u8);
    out.push(((v / 0x10000000000) % 256) as u8);
    out.push(((v / 0x1000000000000) % 256) as u8);
    out.push(((v / 0x100000000000000) % 256) as u8);
    proof {
        assert(out@ =~= old(out)@ + le64(v as int));
    }
}

fn push_rel32(out: &mut Vec<u8>, target: u64, after: u64)
    requires
        target <= 0x7FFF_FFFF,
        after <= 0x8000_1000,
    ensures
        final(out)@ == old(out)@ + rel32(target as int, after as int),
{
    if target >= after {
        push_le32(out, (target - after) as u32);
    } else {
        let d = after - target;
        push_le32(out, (0x1_0000_0000u64 - d) as u32);
    }
}

proof fn lemma_take_push_cnt(ir: Seq<BfIR>, i: int)
    requires
        0 <= i < ir.len(),
    ensures
        ir.take(i + 1) == ir.take(i).push(ir[i]),
        cnt_jz(ir.take(i + 1)) == cnt_jz(ir.take(i)) + if ir[i] is Jz {
            1nat
        } else {
            0nat
        },
        cnt_jnz(ir.take(i + 1)) == cnt_jnz(ir.take(i)) + if ir[i] is Jnz {
            1nat
        } else {
            0nat
        },
{
    assert(ir.take(i + 1) =~= ir.take(i).push(ir[i]));
    crate::ir::lemma_cnt_push(ir.take(i), ir[i]);
}

proof fn lemma_balanced_match_some(ir: Seq<BfIR>, i: int, stk: Seq<int>, m: Map<int, int>)
    requires
        0 <= i <= ir.len(),
        stk.len() + cnt_jnz(ir.take(i)) == cnt_jz(ir.take(i)),
        balanced(ir),
    ensures
        spec_match(ir, i, stk, m) is Some,
    decreases ir.len() - i,
{
    if i >= ir.len() {
        assert(ir.take(i) =~= ir);
    } else {
        lemma_take_push_cnt(ir, i);
        match ir[i] {
            BfIR::Jz => {
                lemma_balanced_match_some(ir, i + 1, stk.push(i), m);
            },
            BfIR::Jnz => {
                assert(cnt_jnz(ir.take(i + 1)) <= cnt_jz(ir.take(i + 1)));
                lemma_balanced_match_some(
                    ir,
                    i + 1,
                    stk.drop_last(),
                    m.insert(stk.last(), i).insert(i, stk.last()),
                );
            },
            _ => {
                lemma_balanced_match_some(ir, i + 1, stk, m);
            },
        }
    }
}

proof fn lemma_match_some_balanced(ir: Seq<BfIR>, i: int, stk: Seq<int>, m: Map<int, int>)
    requires
        0 <= i <= ir.len(),
        stk.len() + cnt_jnz(ir.take(i)) == cnt_jz(ir.take(i)),
        forall|j: int| 0 <= j <= i ==> cnt_jnz(#[trigger] ir.take(j)) <= cnt_jz(ir.take(j)),
        spec_match(ir, i, stk, m) is Some,
    ensures
        balanced(ir),
    decreases ir.len() - i,
{
    if i >= ir.len() {
        assert(ir.take(i) =~= ir);
        assert forall|j: int| 0 <= j <= ir.len() implies cnt_jnz(#[trigger] ir.take(j)) <= cnt_jz(
            ir.take(j),
        ) by {}
    } else {
        lemma_take_push_cnt(ir, i);
        match ir[i] {
            BfIR::Jz => {
                assert forall|j: int| 0 <= j <= i + 1 implies cnt_jnz(#[trigger] ir.take(j))
                    <= cnt_jz(ir.take(j)) by {}
                lemma_match_some_balanced(ir, i + 1, stk.push(i), m);
            },
            BfIR::Jnz => {
                assert(stk.len() > 0);
                assert forall|j: int| 0 <= j <= i + 1 implies cnt_jnz(#[trigger] ir.take(j))
                    <= cnt_jz(ir.take(j)) by {}
                lemma_match_some_balanced(
                    ir,
                    i + 1,
                    stk.drop_last(),
                    m.insert(stk.last(), i).insert(i, stk.last()),
                );
            },
            _ => {
                assert forall|j: int| 0 <= j <= i + 1 implies cnt_jnz(#[trigger] ir.take(j))
                    <= cnt_jz(ir.take(j)) by {}
                lemma_match_some_balanced(ir, i + 1, stk, m);
            },
        }
    }
}

proof fn lemma_block_bytes_len(ir: Seq<BfIR>, i: int, getbyte_addr: u64, putbyte_addr: u64)
    requires
        0 <= i < ir.len(),
    ensures
        spec_block(ir, i, getbyte_addr, putbyte_addr).len() == block_len(ir[i]),
{
}

proof fn lemma_blocks_upto_len(ir: Seq<BfIR>, i: int, getbyte_addr: u64, putbyte_addr: u64)
    requires
        0 <= i <= ir.len(),
    ensures
        blocks_upto(ir, i, getbyte_addr, putbyte_addr).len() == body_len_upto(ir, i),
    decreases i,
{
    if i > 0 {
        lemma_blocks_upto_len(ir, i - 1, getbyte_addr, putbyte_addr);
        lemma_block_bytes_len(ir, i - 1, getbyte_addr, putbyte_addr);
    }
}

/// Law: the emitted function is exactly as long as the layout says: the
/// prologue, one fixed-size block per opcode, and the epilogue.
pub proof fn lemma_program_len(
    ir: Seq<BfIR>,
    getbyte_addr: u64,
    putbyte_addr: u64,
    overflow_addr: u64,
)
    ensures
        spec_program(ir, getbyte_addr, putbyte_addr, overflow_addr).len() == total_len(ir),
{
    lemma_blocks_upto_len(ir, ir.len() as int, getbyte_addr, putbyte_addr);
}

/// Law: the brackets of an opcode sequence pair up under the left-to-right
/// stack discipline exactly when the sequence is balanced — the guarantee
/// the IR compiler gives is precisely what the code generator needs.
pub proof fn lemma_balanced_iff_matched(ir: Seq<BfIR>)
    ensures
        balanced(ir) <==> (match_map(ir) is Some),
{
    assert(ir.take(0) =~= Seq::<BfIR>::empty());
    if balanced(ir) {
        lemma_balanced_match_some(ir, 0, Seq::empty(), Map::empty());
    }
    if match_map(ir) is Some {
        lemma_match_some_balanced(ir, 0, Seq::empty(), Map::empty());
    }
}

/// The pairing `m` is internally coherent over the first `i` opcodes:
/// an involution that pairs each `Jz` with a later `Jnz`.
pub open spec fn pairs_ok(ir: Seq<BfIR>, m: Map<int, int>, i: int) -> bool {
    forall|k: int| #[trigger] m.dom().contains(k) ==> {
        &&& 0 <= k < i
        &&& 0 <= m[k] < i
        &&& m.dom().contains(m[k])
        &&& m[m[k]] == k
        &&& ((ir[k] is Jz && ir[m[k]] is Jnz && k < m[k]) || (ir[k] is Jnz && ir[m[k]] is Jz
            && m[k] < k))
    }
}

fn match_brackets(ir: &Vec<BfIR>) -> (r: Option<(Vec<usize>, Ghost<Map<int, int>>)>)
    ensures
        match r {
            Some(pair) => {
                &&& match_map(ir@) == Some(pair.1@)
                &&& pair.0@.len() == ir@.len()
                &&& pairs_ok(ir@, pair.1@, ir@.len() as int)
                &&& forall|k: int|
                    #[trigger] pair.1@.dom().contains(k) ==> pair.0@[k] as int == pair.1@[k]
                &&& forall|k: int|
                    0 <= k < ir@.len() && (ir@[k] is Jz || ir@[k] is Jnz)
                        ==> pair.1@.dom().contains(k)
            },
            None => match_map(ir@) is None,
        },
{
    let n = ir.len();
    let mut mv: Vec<usize> = Vec::new();
    let mut t: usize = 0;
    while t < n
        invariant
            t <= n,
            mv@.len() == t,
        decreases n - t,
    {
        mv.push(0);
        t = t + 1;
    }
    let mut stk: Vec<usize> = Vec::new();
    let ghost mut stkg: Seq<int> = Seq::empty();
    let ghost mut mg: Map<int, int> = Map::empty();
    let mut i: usize = 0;
    while i < n
        invariant
            i <= n,
            n == ir@.len(),
            mv@.len() == n,
            stk@.len() == stkg.len(),
            forall|u: int| 0 <= u < stkg.len() ==> #[trigger] stk@[u] as int == stkg[u],
            spec_match(ir@, i as int, stkg, mg) == match_map(ir@),
            forall|u: int|
                0 <= u < stkg.len() ==> 0 <= #[trigger] stkg[u] < i && ir@[stkg[u]] is Jz
                    && !mg.dom().contains(stkg[u]),
            pairs_ok(ir@, mg, i as int),
            forall|k: int|
                0 <= k < i && (ir@[k] is Jz || ir@[k] is Jnz) ==> mg.dom().contains(k)
                    || stkg.contains(k),
            forall|u1: int, u2: int|
                0 <= u1 < u2 < stkg.len() ==> #[trigger] stkg[u1] < #[trigger] stkg[u2],
            forall|k: int| #[trigger] mg.dom().contains(k) ==> mv@[k] as int == mg[k],
        decreases n - i,
    {
        match ir[i] {
            BfIR::Jz => {
                stk.push(i);
                proof {
                    let oldstkg = stkg;
                    stkg = stkg.push(i as int);
                    assert(!mg.dom().contains(i as int));
                    assert forall|u: int| 0 <= u < stkg.len() implies 0 <= #[trigger] stkg[u] < i
                        + 1 && ir@[stkg[u]] is Jz && !mg.dom().contains(stkg[u]) by {
                        if u < oldstkg.len() {
                            assert(stkg[u] == oldstkg[u]);
                        } else {
                            assert(stkg[u] == i as int);
                        }
                    }
                    assert forall|k: int|
                        0 <= k < i + 1 && (ir@[k] is Jz || ir@[k] is Jnz) implies mg.dom().contains(
                        k,
                    ) || stkg.contains(k) by {
                        if k == i as int {
                            assert(stkg[stkg.len() - 1] == k);
                            assert(stkg.contains(k));
                        } else if !mg.dom().contains(k) {
                            assert(oldstkg.contains(k));
                            let u = choose|u: int| 0 <= u < oldstkg.len() && oldstkg[u] == k;
                            assert(stkg[u] == k);
                            assert(stkg.contains(k));
                        }
                    }
                }
            },
            BfIR::Jnz => {
                if stk.len() == 0 {
                    return None;
                }
                let p = stk[stk.len() - 1];
                stk.pop();
                mv[p] = i;
                mv[i] = p;
                proof {
                    let oldstkg = stkg;
                    let oldmg = mg;
                    assert(oldstkg[oldstkg.len() - 1] == p as int);
                    assert(!oldmg.dom().contains(p as int));
                    assert(!oldmg.dom().contains(i as int));
                    stkg = stkg.drop_last();
                    mg = mg.insert(p as int, i as int).insert(i as int, p as int);
                    assert forall|u: int| 0 <= u < stkg.len() implies 0 <= #[trigger] stkg[u] < i
                        + 1 && ir@[stkg[u]] is Jz && !mg.dom().contains(stkg[u]) by {
                        assert(stkg[u] == oldstkg[u]);
                        assert(oldstkg[u] < p as int);
                    }
                    assert forall|k: int| #[trigger] mg.dom().contains(k) implies {
                        &&& 0 <= k < i + 1
                        &&& 0 <= mg[k] < i + 1
                        &&& mg.dom().contains(mg[k])
                        &&& mg[mg[k]] == k
                        &&& ((ir@[k] is Jz && ir@[mg[k]] is Jnz && k < mg[k]) || (ir@[k] is Jnz
                            && ir@[mg[k]] is Jz && mg[k] < k))
                    } by {
                        if k != p as int && k != i as int {
                            assert(oldmg.dom().contains(k));
                            assert(oldmg.dom().contains(oldmg[k]));
                            assert(oldmg[k] != p as int && oldmg[k] != i as int);
                            assert(mg[k] == oldmg[k]);
                        }
                    }
                    assert forall|k: int|
                        0 <= k < i + 1 && (ir@[k] is Jz || ir@[k] is Jnz) implies mg.dom().contains(
                        k,
                    ) || stkg.contains(k) by {
                        if k < i && !oldmg.dom().contains(k) && k != p {
                            assert(oldstkg.contains(k));
                            let u = choose|u: int| 0 <= u < oldstkg.len() && oldstkg[u] == k;
                            assert(u < oldstkg.len() - 1);
                            assert(stkg[u] == k);
                            assert(stkg.contains(k));
                        }
                    }
                    assert forall|k: int| #[trigger] mg.dom().contains(k) implies mv@[k] as int
                        == mg[k] by {
                        if k != p as int && k != i as int {
                            assert(oldmg.dom().contains(k));
                        }
                    }
                }
            },
            _ => {
            },
        }
        i = i + 1;
    }
    if stk.len() > 0 {
        proof {
            assert(stkg.len() > 0);
        }
        return None;
    }
    proof {
        assert forall|k: int|
            0 <= k < ir@.len() && (ir@[k] is Jz || ir@[k] is Jnz) implies mg.dom().contains(
            k,
        ) by {
            if stkg.contains(k) {
                let u = choose|u: int| 0 <= u < stkg.len() && stkg[u] == k;
                assert(false);
            }
        }
    }
    Some((mv, Ghost(mg)))
}

proof fn lemma_body_len_mono(ir: Seq<BfIR>, i: int, j: int)
    requires
        0 <= i <= j,
    ensures
        body_len_upto(ir, i) <= body_len_upto(ir, j),
    decreases j,
{
    if i < j {
        lemma_body_len_mono(ir, i, j - 1);
    }
}

fn layout(ir: &Vec<BfIR>) -> (r: Option<(Vec<u64>, u64)>)
    ensures
        match r {
            Some(pair) => {
                &&& fits(ir@)
                &&& pair.0@.len() == ir@.len()
                &&& forall|t: int|
                    0 <= t < ir@.len() ==> #[trigger] pair.0@[t] as int == block_pos(ir@, t)
                        && pair.0@[t] <= 0x7FFF_FFE4
                &&& pair.1 as int == 13 + body_len(ir@)
                &&& pair.1 <= 0x7FFF_FFE4
            },
            None => !fits(ir@),
        },
{
    let n = ir.len();
    let mut posv: Vec<u64> = Vec::new();
    let mut p: u64 = 13;
    let mut i: usize = 0;
    while i < n
        invariant
            i <= n,
            n == ir@.len(),
            posv@.len() == i,
            p as int == block_pos(ir@, i as int),
            p <= 0x7FFF_FFE4,
            forall|t: int|
                0 <= t < i ==> #[trigger] posv@[t] as int == block_pos(ir@, t) && posv@[t]
                    <= 0x7FFF_FFE4,
        decreases n - i,
    {
        posv.push(p);
        let bl: u64 = match ir[i] {
            BfIR::AddVal(_) => 3,
            BfIR::SubVal(_) => 3,
            BfIR::AddPtr(_) => 22,
            BfIR::SubPtr(_) => 22,
            BfIR::GetByte => 34,
            BfIR::PutByte => 34,
            BfIR::Jz => 9,
            BfIR::Jnz => 9,
        };
        proof {
            assert(bl == block_len(ir@[i as int]));
        }
        p = p + bl;
        if p > 0x7FFF_FFE4 {
            proof {
                lemma_body_len_mono(ir@, i + 1 as int, ir@.len() as int);
            }
            return None;
        }
        i = i + 1;
    }
    Some((posv, p))
}

fn emit_add_ptr(out: &mut Vec<u8>, x: u32, q: u64, ovf: u64)
    requires
        q <= 0x7FFF_FFE4,
        ovf <= 0x7FFF_FFFF,
    ensures
        final(out)@ == old(out)@ + add_ptr_block(x, q as int, ovf as int),
{
    out.push(0x48);
    out.push(0x81);
    out.push(0xC1);
    push_le32(out, x);
    out.push(0x0F);
    out.push(0x82);
    push_rel32(out, ovf, q + 13);
    out.push(0x4C);
    out.push(0x39);
    out.push(0xF1);
    out.push(0x0F);
    out.push(0x83);
    push_rel32(out, ovf, q + 22);
    proof {
        assert(out@ =~= old(out)@ + add_ptr_block(x, q as int, ovf as int));
    }
}

fn emit_sub_ptr(out: &mut Vec<u8>, x: u32, q: u64, ovf: u64)
    requires
        q <= 0x7FFF_FFE4,
        ovf <= 0x7FFF_FFFF,
    ensures
        final(out)@ == old(out)@ + sub_ptr_block(x, q as int, ovf as int),
{
    out.push(0x48);
    out.push(0x81);
    out.push(0xE9);
    push_le32(out, x);
    out.push(0x0F);
    out.push(0x82);
    push_rel32(out, ovf, q + 13);
    out.push(0x4C);
    out.push(0x39);
    out.push(0xE9);
    out.push(0x0F);
    out.push(0x82);
    push_rel32(out, ovf, q + 22);
    proof {
        assert(out@ =~= old(out)@ + sub_ptr_block(x, q as int, ovf as int));
    }
}

fn emit_io(out: &mut Vec<u8>, addr: u64, q: u64, exitp: u64)
    requires
        q <= 0x7FFF_FFE4,
        exitp <= 0x7FFF_FFFF,
    ensures
        final(out)@ == old(out)@ + io_block(addr, q as int, exitp as int),
{
    out.push(0x49);
    out.push(0x89);
    out.push(0xCF);
    out.push(0x4C);
    out.push(0x89);
    out.push(0xE7);
    out.push(0x48);
    out.push(0x89);
    out.push(0xCE);
    out.push(0x48);
    out.push(0xB8);
    push_le64(out, addr);
    out.push(0xFF);
    out.push(0xD0);
    out.push(0x48);
    out.push(0x83);
    out.push(0xF8);
    out.push(0x00);
    out.push(0x0F);
    out.push(0x85);
    push_rel32(out, exitp, q + 31);
    out.push(0x4C);
    out.push(0x89);
    out.push(0xF9);
    proof {
        assert(out@ =~= old(out)@ + io_block(addr, q as int, exitp as int));
    }
}

fn emit_jump(out: &mut Vec<u8>, opcode2: u8, q: u64, target: u64)
    requires
        q <= 0x7FFF_FFE4,
        target <= 0x7FFF_FFFF,
    ensures
        final(out)@ == old(out)@ + seq![0x80u8, 0x39u8, 0x00u8, 0x0Fu8, opcode2] + rel32(
            target as int,
            q as int + 9,
        ),
{
    out.push(0x80);
    out.push(0x39);
    out.push(0x00);
    out.push(0x0F);
    out.push(opcode2);
    push_rel32(out, target, q + 9);
    proof {
        assert(out@ =~= old(out)@ + seq![0x80u8, 0x39u8, 0x00u8, 0x0Fu8, opcode2] + rel32(
            target as int,
            q as int + 9,
        ));
    }
}

fn emit_prologue(out: &mut Vec<u8>)
    ensures
        final(out)@ == old(out)@ + prologue(),
{
    out.push(0x50);
    out.push(0x49);
    out.push(0x89);
    out.push(0xFC);
    out.push(0x49);
    out.push(0x89);
    out.push(0xF5);
    out.push(0x49);
    out.push(0x89);
    out.push(0xD6);
    out.push(0x48);
    out.push(0x89);
    out.push(0xF1);
    proof {
        assert(out@ =~= old(out)@ + prologue());
    }
}

fn emit_epilogue(out: &mut Vec<u8>, overflow_addr: u64)
    ensures
        final(out)@ == old(out)@ + epilogue(overflow_addr),
{
    out.push(0x48);
    out.push(0x31);
    out.push(0xC0);
    out.push(0xE9);
    push_le32(out, 17);
    out.push(0x48);
    out.push(0xB8);
    push_le64(out, overflow_addr);
    out.push(0xFF);
    out.push(0xD0);
    out.push(0xE9);
    push_le32(out, 0);
    out.push(0x5A);
    out.push(0xC3);
    proof {
        assert(out@ =~= old(out)@ + epilogue(overflow_addr));
    }
}

/// Lower an opcode sequence to the bytes of one native function, entry at
/// offset zero.  `getbyte_addr` and `putbyte_addr` are the addresses of the
/// two I/O callbacks, `overflow_addr` of the callback that allocates a
/// pointer-overflow error; all three follow the System V AMD64 convention.
///
/// Succeeds exactly on sequences whose brackets pair and whose code fits
/// 32-bit relative jumps, and then returns `spec_program` of the input,
/// byte for byte.
#[verifier::rlimit(100)]
pub fn assemble(
    ir: &Vec<BfIR>,
    getbyte_addr: u64,
    putbyte_addr: u64,
    overflow_addr: u64,
) -> (r: Result<Vec<u8>, AssemblerError>)
    ensures
        r is Ok <==> balanced(ir@) && fits(ir@),
        match_map(ir@) is Some && fits(ir@) ==> r is Ok && r->Ok_0@ == spec_program(
            ir@,
            getbyte_addr,
            putbyte_addr,
            overflow_addr,
        ),
        match_map(ir@) is None ==> r == Err::<Vec<u8>, AssemblerError>(AssemblerError::Unbalanced),
        match_map(ir@) is Some && !fits(ir@) ==> r == Err::<Vec<u8>, AssemblerError>(
            AssemblerError::TooLarge,
        ),
{
    proof {
        lemma_balanced_iff_matched(ir@);
    }
    let matched = match match_brackets(ir) {
        Some(pair) => pair,
        None => {
            return Err(AssemblerError::Unbalanced);
        },
    };
    let mv = matched.0;
    let ghost mg = matched.1@;
    let laid = match layout(ir) {
        Some(pair) => pair,
        None => {
            return Err(AssemblerError::TooLarge);
        },
    };
    let posv = laid.0;
    let end = laid.1;
    let ovf: u64 = end + 8;
    let iox: u64 = end + 25;
    let n = ir.len();
    let mut out: Vec<u8> = Vec::new();
    emit_prologue(&mut out);
    proof {
        assert(out@ =~= prologue() + blocks_upto(ir@, 0, getbyte_addr, putbyte_addr));
    }
    let mut i: usize = 0;
    while i < n
        invariant
            i <= n,
            n == ir@.len(),
            match_map(ir@) == Some(mg),
            pairs_ok(ir@, mg, n as int),
            mv@.len() == n,
            forall|k: int| #[trigger] mg.dom().contains(k) ==> mv@[k] as int == mg[k],
            forall|k: int|
                0 <= k < n && (ir@[k] is Jz || ir@[k] is Jnz) ==> mg.dom().contains(k),
            posv@.len() == n,
            forall|t: int|
                0 <= t < n ==> #[trigger] posv@[t] as int == block_pos(ir@, t) && posv@[t]
                    <= 0x7FFF_FFE4,
            end as int == 13 + body_len(ir@),
            end <= 0x7FFF_FFE4,
            ovf == end + 8,
            iox == end + 25,
            out@ == prologue() + blocks_upto(ir@, i as int, getbyte_addr, putbyte_addr),
        decreases n - i,
    {
        let ghost pre = out@;
        let q = posv[i];
        match ir[i] {
            BfIR::AddVal(x) => {
                out.push(0x80);
                out.push(0x01);
                out.push(x);
            },
            BfIR::SubVal(x) => {
                out.push(0x80);
                out.push(0x29);
                out.push(x);
            },
            BfIR::AddPtr(x) => {
                emit_add_ptr(&mut out, x, q, ovf);
            },
            BfIR::SubPtr(x) => {
                emit_sub_ptr(&mut out, x, q, ovf);
            },
            BfIR::GetByte => {
                emit_io(&mut out, getbyte_addr, q, iox);
            },
            BfIR::PutByte => {
                emit_io(&mut out, putbyte_addr, q, iox);
            },
            BfIR::Jz => {
                proof {
                    assert(mg.dom().contains(i as int));
                }
                let j = mv[i];
                let target = posv[j] + 9;
                emit_jump(&mut out, 0x84, q, target);
            },
            BfIR::Jnz => {
                proof {
                    assert(mg.dom().contains(i as int));
                }
                let j = mv[i];
                let target = posv[j] + 9;
                emit_jump(&mut out, 0x85, q, target);
            },
        }
        proof {
            assert(out@ =~= pre + spec_block(ir@, i as int, getbyte_addr, putbyte_addr));
            assert(out@ =~= prologue() + blocks_upto(
                ir@,
                i + 1 as int,
                getbyte_addr,
                putbyte_addr,
            ));
        }
        i = i + 1;
    }
    emit_epilogue(&mut out, overflow_addr);
    proof {
        assert(out@ =~= spec_program(ir@, getbyte_addr, putbyte_addr, overflow_addr));
    }
    Ok(out)
}

} // verus!
