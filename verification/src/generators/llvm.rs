//! The structured IR backend: tokens to one function built from explicit
//! basic blocks linked by branches, for lowering through LLVM.
//!
//! The generated function keeps the memory region as a local byte array and
//! the data pointer as a 64-bit index in local storage; every cell access
//! recomputes the element address from the current index, so no value is
//! cached across operations.  One empty block is reserved for every bracket
//! token before any instruction is placed, branch targets reference blocks
//! by index, and every block ends in exactly one terminator.

use std::collections::HashMap;

use vstd::prelude::*;

use crate::common::XBFError;
use crate::generators::common::brackets_ok;
use crate::generators::common::is_bracket;
use crate::generators::common::lemma_scan_inv;
use crate::generators::common::match_brackets;
use crate::generators::common::scan;
use crate::generators::common::scan_inv;
use crate::generators::common::structural_err_of;
use crate::lexer::Token;
use crate::lexer::TokenType;

verus! {

broadcast use vstd::std_specs::hash::group_hash_axioms;

/// One straight-line operation on the program's state.
#[derive(Clone, Copy, Debug, PartialEq, Eq, Structural)]
pub enum CellOp {
    /// Load the current cell, add or subtract the run length, store it back.
    AccCell { decrement: bool, amount: usize },
    /// Load the index, add or subtract the run length, store it back.
    MoveIdx { left: bool, amount: usize },
    /// Load the current cell and pass it to a single-character output call.
    OutputCell,
    /// Read one value, read and discard a trailing line terminator, truncate
    /// the value to one byte, and store it into the current cell.
    InputCell,
}

/// How a basic block ends.  Every block ends in exactly one terminator.
#[derive(Clone, Copy, Debug, PartialEq, Eq, Structural)]
pub enum Terminator {
    /// Load the current cell, compare it to zero, and branch to `target`
    /// when the comparison (equality, or inequality when
    /// `branch_if_nonzero`) holds, else fall through to `fallthrough`.
    /// Both name blocks by their index in the function.
    CondBranch { branch_if_nonzero: bool, target: usize, fallthrough: usize },
    /// Return the integer status zero.
    Ret,
}

/// A block's name: the function entry, or the block reserved for the bracket
/// token at a position.
#[derive(Clone, Copy, Debug, PartialEq, Eq, Structural)]
pub enum BlockLabel {
    Entry,
    AtBracket(usize),
}

/// One basic block: a label, straight-line operations, and one terminator.
#[derive(Debug)]
pub struct IrBlock {
    pub label: BlockLabel,
    pub ops: Vec<CellOp>,
    pub term: Terminator,
}

/// The generated function: its memory region size and its basic blocks, in
/// emission order.  Branches name blocks by index into `blocks`.
#[derive(Debug)]
pub struct IrFunction {
    pub mem_size: usize,
    pub blocks: Vec<IrBlock>,
}

/// The mathematical view of a basic block.
pub struct BlockModel {
    pub label: BlockLabel,
    pub ops: Seq<CellOp>,
    pub term: Terminator,
}

/// The mathematical view of the generated function.
pub struct FunctionModel {
    pub mem_size: usize,
    pub blocks: Seq<BlockModel>,
}

impl View for IrBlock {
    type V = BlockModel;

    open spec fn view(&self) -> BlockModel {
        BlockModel { label: self.label, ops: self.ops@, term: self.term }
    }
}

impl View for IrFunction {
    type V = FunctionModel;

    open spec fn view(&self) -> FunctionModel {
        FunctionModel { mem_size: self.mem_size, blocks: blocks_view(self.blocks@) }
    }
}

/// The views of a sequence of blocks.
pub open spec fn blocks_view(v: Seq<IrBlock>) -> Seq<BlockModel> {
    v.map_values(|b: IrBlock| b@)
}

/// The operation a non-bracket token translates to.
pub open spec fn token_op(t: TokenType) -> CellOp {
    match t {
        TokenType::Inc(size) => CellOp::AccCell { decrement: false, amount: size },
        TokenType::Dec(size) => CellOp::AccCell { decrement: true, amount: size },
        TokenType::Left(size) => CellOp::MoveIdx { left: true, amount: size },
        TokenType::Right(size) => CellOp::MoveIdx { left: false, amount: size },
        TokenType::PutChar => CellOp::OutputCell,
        TokenType::GetChar => CellOp::InputCell,
        _ => arbitrary(),
    }
}

/// The number of bracket tokens among the first `n` tokens.
pub open spec fn bracket_count(s: Seq<Token>, n: int) -> nat
    decreases n,
{
    if n <= 0 {
        0
    } else {
        bracket_count(s, n - 1) + if is_bracket(s[n - 1].typ) {
            1nat
        } else {
            0nat
        }
    }
}

/// The index of the block reserved for the bracket token at position `p`:
/// the entry block comes first, then one block per bracket token in source
/// order.
pub open spec fn block_index(s: Seq<Token>, p: int) -> nat {
    1 + bracket_count(s, p)
}

/// The emission state after translating a prefix of the tokens: the finished
/// blocks and the label and operations of the block still being filled.
pub struct EmitState {
    pub done: Seq<BlockModel>,
    pub cur_label: BlockLabel,
    pub cur_ops: Seq<CellOp>,
}

/// The emission state after translating the first `n` tokens.  A non-bracket
/// token appends its operation to the current block; a bracket token at `i`
/// matched to `j` terminates the current block with a branch to `j`'s block
/// (taken on zero for an open, on nonzero for a close) falling through to
/// `i`'s own block, which becomes current.
pub open spec fn emit_prefix(s: Seq<Token>, m: Map<usize, usize>, n: int) -> EmitState
    decreases n,
{
    if n <= 0 {
        EmitState { done: Seq::empty(), cur_label: BlockLabel::Entry, cur_ops: Seq::empty() }
    } else {
        let st = emit_prefix(s, m, n - 1);
        let i = (n - 1) as usize;
        let t = s[n - 1].typ;
        if is_bracket(t) {
            let term = Terminator::CondBranch {
                branch_if_nonzero: t is BracketClose,
                target: block_index(s, m[i] as int) as usize,
                fallthrough: block_index(s, i as int) as usize,
            };
            EmitState {
                done: st.done.push(BlockModel { label: st.cur_label, ops: st.cur_ops, term }),
                cur_label: BlockLabel::AtBracket(i),
                cur_ops: Seq::empty(),
            }
        } else {
            EmitState {
                done: st.done,
                cur_label: st.cur_label,
                cur_ops: st.cur_ops.push(token_op(t)),
            }
        }
    }
}

/// The blocks of the generated function: the emission of all tokens, with
/// the block left current at the end closed by a return.
pub open spec fn ir_blocks(s: Seq<Token>, m: Map<usize, usize>) -> Seq<BlockModel> {
    let st = emit_prefix(s, m, s.len() as int);
    st.done.push(BlockModel { label: st.cur_label, ops: st.cur_ops, term: Terminator::Ret })
}

/// The generated function for a structurally valid token sequence.
pub open spec fn ir_function_model(s: Seq<Token>, mem: usize) -> FunctionModel {
    FunctionModel { mem_size: mem, blocks: ir_blocks(s, scan(s).map) }
}

/// Builds the structured function for the token sequence with a memory
/// region of `memory_size` bytes, or reports the matcher's structural error.
pub fn generator_llvm(tokens: Vec<Token>, memory_size: usize) -> (r: Result<IrFunction, XBFError>)
    requires
        tokens@.len() < usize::MAX,
    ensures
        brackets_ok(tokens@) ==> r is Ok && r->Ok_0@ == ir_function_model(
            tokens@,
            memory_size,
        ),
        !brackets_ok(tokens@) ==> r is Err && r->Err_0 == structural_err_of(tokens@),
{
    let ghost s = tokens@;

    let brackets = match match_brackets(&tokens) {
        Ok(m) => m,
        Err(e) => {
            return Err(e);
        },
    };
    let ghost m = scan(s).map;

    let n = tokens.len();
    proof {
        lemma_scan_inv(s, s.len() as int);
    }

    // Pre-pass: reserve one block index for every bracket token, so branch
    // targets exist before any instruction is translated.
    let mut blocks_map: HashMap<usize, usize> = HashMap::new();
    let mut next_index: usize = 1;
    let mut i: usize = 0;
    while i < n
        invariant
            n == s.len(),
            tokens@ == s,
            i <= n,
            n < usize::MAX,
            next_index as nat == 1 + bracket_count(s, i as int),
            next_index <= i + 1,
            forall|p: usize|
                blocks_map@.contains_key(p) <==> (p < i && is_bracket(s[p as int].typ)),
            forall|p: usize|
                blocks_map@.contains_key(p) ==> blocks_map@[p] == block_index(s, p as int),
        decreases n - i,
    {
        let t = &tokens[i];
        match t.get_typ() {
            TokenType::BracketOpen => {
                blocks_map.insert(i, next_index);
                next_index = next_index + 1;
            },
            TokenType::BracketClose => {
                blocks_map.insert(i, next_index);
                next_index = next_index + 1;
            },
            _ => {},
        }
        i = i + 1;
    }

    // Instruction pass: walk the tokens in order, filling the current block
    // and closing it with a branch at every bracket.
    let mut done: Vec<IrBlock> = Vec::new();
    let mut cur_label = BlockLabel::Entry;
    let mut cur_ops: Vec<CellOp> = Vec::new();
    let mut i: usize = 0;
    while i < n
        invariant
            n == s.len(),
            tokens@ == s,
            i <= n,
            brackets_ok(s),
            m == scan(s).map,
            brackets@ == m,
            scan_inv(s, s.len() as int, scan(s)),
            forall|p: usize|
                blocks_map@.contains_key(p) <==> (p < n && is_bracket(s[p as int].typ)),
            forall|p: usize|
                blocks_map@.contains_key(p) ==> blocks_map@[p] == block_index(s, p as int),
            blocks_view(done@) == emit_prefix(s, m, i as int).done,
            cur_label == emit_prefix(s, m, i as int).cur_label,
            cur_ops@ == emit_prefix(s, m, i as int).cur_ops,
        decreases n - i,
    {
        let ghost pre = emit_prefix(s, m, i as int);
        let t = &tokens[i];
        let is_open = match t.get_typ() {
            TokenType::BracketOpen => true,
            _ => false,
        };
        let is_close = match t.get_typ() {
            TokenType::BracketClose => true,
            _ => false,
        };
        if is_open || is_close {
            proof {
                if scan(s).stack.contains(i) {
                    let x = choose|x: int| 0 <= x < scan(s).stack.len() && scan(s).stack[x] == i;
                    assert(false);
                }
                assert(m.contains_key(i));
                assert(m[m[i]] == i);
            }
            let j: usize = match brackets.get(&i) {
                Some(j) => *j,
                None => vstd::pervasive::unreached(),
            };
            let target: usize = match blocks_map.get(&j) {
                Some(b) => *b,
                None => vstd::pervasive::unreached(),
            };
            let fallthrough: usize = match blocks_map.get(&i) {
                Some(b) => *b,
                None => vstd::pervasive::unreached(),
            };
            let term = Terminator::CondBranch { branch_if_nonzero: is_close, target, fallthrough };
            let ops = cur_ops;
            cur_ops = Vec::new();
            done.push(IrBlock { label: cur_label, ops, term });
            cur_label = BlockLabel::AtBracket(i);
            proof {
                assert(blocks_view(done@) =~= emit_prefix(s, m, i as int + 1).done);
            }
        } else {
            let op = match t.get_typ() {
                TokenType::Inc(size) => CellOp::AccCell { decrement: false, amount: *size },
                TokenType::Dec(size) => CellOp::AccCell { decrement: true, amount: *size },
                TokenType::Left(size) => CellOp::MoveIdx { left: true, amount: *size },
                TokenType::Right(size) => CellOp::MoveIdx { left: false, amount: *size },
                TokenType::PutChar => CellOp::OutputCell,
                TokenType::GetChar => CellOp::InputCell,
                _ => vstd::pervasive::unreached(),
            };
            cur_ops.push(op);
            proof {
                assert(cur_ops@ =~= emit_prefix(s, m, i as int + 1).cur_ops);
            }
        }
        i = i + 1;
    }

    done.push(IrBlock { label: cur_label, ops: cur_ops, term: Terminator::Ret });
    proof {
        assert(blocks_view(done@) =~= ir_blocks(s, m));
    }
    Ok(IrFunction { mem_size: memory_size, blocks: done })
}

/// Structural well-formedness of a generated function: there is at least one
/// block, the entry block comes first, every block before the last ends in a
/// conditional branch whose targets name existing blocks, and exactly the
/// final block returns.
pub open spec fn ir_wf(f: FunctionModel) -> bool {
    &&& f.blocks.len() >= 1
    &&& f.blocks[0].label is Entry
    &&& f.blocks[f.blocks.len() - 1].term is Ret
    &&& (forall|b: int|
        0 <= b < f.blocks.len() - 1 ==> (#[trigger] f.blocks[b].term) is CondBranch)
    &&& (forall|b: int|
        0 <= b < f.blocks.len() ==> match #[trigger] f.blocks[b].term {
            Terminator::CondBranch { target, fallthrough, .. } => target < f.blocks.len()
                && fallthrough < f.blocks.len(),
            Terminator::Ret => true,
        })
}

proof fn lemma_bracket_count_mono(s: Seq<Token>, a: int, b: int)
    requires
        a <= b,
    ensures
        bracket_count(s, a) <= bracket_count(s, b),
    decreases b - a,
{
    if a < b {
        lemma_bracket_count_mono(s, a, b - 1);
    }
}

/// The block reserved for a bracket token is one of the function's blocks.
proof fn lemma_block_index_bound(s: Seq<Token>, p: int)
    requires
        0 <= p < s.len(),
        is_bracket(s[p].typ),
    ensures
        block_index(s, p) < 1 + bracket_count(s, s.len() as int),
{
    assert(bracket_count(s, p + 1) == bracket_count(s, p) + 1);
    lemma_bracket_count_mono(s, p + 1, s.len() as int);
}

proof fn lemma_emit_wf(s: Seq<Token>, m: Map<usize, usize>, n: int)
    requires
        0 <= n <= s.len() <= usize::MAX,
        brackets_ok(s),
        m == scan(s).map,
    ensures
        emit_prefix(s, m, n).done.len() == bracket_count(s, n),
        forall|b: int|
            0 <= b < emit_prefix(s, m, n).done.len() ==> match (#[trigger] emit_prefix(
                s,
                m,
                n,
            ).done[b].term) {
                Terminator::CondBranch { target, fallthrough, .. } => target < 1 + bracket_count(
                    s,
                    s.len() as int,
                ) && fallthrough < 1 + bracket_count(s, s.len() as int),
                Terminator::Ret => false,
            },
        bracket_count(s, n) == 0 ==> emit_prefix(s, m, n).cur_label is Entry,
        bracket_count(s, n) > 0 ==> emit_prefix(s, m, n).done[0].label is Entry,
    decreases n,
{
    if n > 0 {
        lemma_emit_wf(s, m, n - 1);
        let i = (n - 1) as usize;
        if is_bracket(s[n - 1].typ) {
            lemma_scan_inv(s, s.len() as int);
            assert(scan(s).map.contains_key(i)) by {
                if scan(s).stack.contains(i) {
                    let x = choose|x: int|
                        0 <= x < scan(s).stack.len() && scan(s).stack[x] == i;
                    assert(false);
                }
            }
            assert(m[m[i]] == i);
            lemma_block_index_bound(s, m[i] as int);
            lemma_block_index_bound(s, i as int);
        }
    }
}

/// The generated function is structurally well formed: blocks reference only
/// existing blocks, and exactly the final block returns.
pub proof fn lemma_ir_wf(s: Seq<Token>, mem: usize)
    requires
        brackets_ok(s),
        s.len() <= usize::MAX,
    ensures
        ir_wf(ir_function_model(s, mem)),
{
    lemma_emit_wf(s, scan(s).map, s.len() as int);
}

} // verus!
