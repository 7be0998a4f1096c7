//! The assembly backend: tokens to flat ARM64 assembly text.
//!
//! The generated program keeps the current cell's value cached in `w0` and
//! the current cell's absolute address in `x1`.  Accumulation tokens become a
//! single immediate add or subtract of the whole run length; movement tokens
//! spill the cache, move the address, and reload; bracket tokens become
//! conditional branches to numbered local labels, where a label's number is
//! the partner token's position in the token sequence.

use vstd::prelude::*;
use vstd::string::StringExecFns;

use crate::common::append_dec;
use crate::common::dec_str;
use crate::common::XBFError;
use crate::generators::common::brackets_ok;
use crate::generators::common::is_bracket;
use crate::generators::common::lemma_scan_inv;
use crate::generators::common::match_brackets;
use crate::generators::common::scan;
use crate::generators::common::scan_inv;
use crate::generators::common::structural_err_of;
use crate::lexer::Token;
use crate::lexer::TokenType;

verus! {

broadcast use vstd::std_specs::hash::group_hash_axioms;

/// The fixed prologue: the entry label, the reserved `mem` region of the
/// requested byte size, a stack frame, the region's base address in `x1`,
/// and a zeroed cell cache in `w0`.
pub open spec fn asm_prologue(mem: nat) -> Seq<char> {
    ".global _main\n\n.bss\n.comm mem, "@ + dec_str(mem)
        + "\n\n.text\n_main:\nsub sp, sp, 16\nadrp x1, mem@PAGE\nadd x1, x1, mem@PAGEOFF\nmov w0, 0\n"@
}

/// The fixed epilogue: a clean process-exit system call.
pub open spec fn asm_epilogue() -> Seq<char> {
    "add sp, sp, 16\nmov w16, 1\nmov w0, 0\nsvc 0x80"@
}

/// The assembly text for the token at position `i`, with `m` the bracket map
/// supplying branch targets for the loop delimiters.
pub open spec fn asm_token_text(t: Token, i: usize, m: Map<usize, usize>) -> Seq<char> {
    match t.typ {
        TokenType::Inc(size) => "add w0, w0, "@ + dec_str(size as nat) + "\n"@,
        TokenType::Dec(size) => "sub w0, w0, "@ + dec_str(size as nat) + "\n"@,
        TokenType::Left(size) => "strb w0, [x1]\nsub x1, x1, "@ + dec_str(size as nat)
            + "\nldrb w0, [x1]\n"@,
        TokenType::Right(size) => "strb w0, [x1]\nadd x1, x1, "@ + dec_str(size as nat)
            + "\nldrb w0, [x1]\n"@,
        TokenType::BracketOpen => "cbz w0, _"@ + dec_str(m[i] as nat) + "\n_"@ + dec_str(i as nat)
            + ":\n"@,
        TokenType::BracketClose => "cbnz w0, _"@ + dec_str(m[i] as nat) + "\n_"@ + dec_str(i as nat)
            + ":\n"@,
        TokenType::PutChar => "strb w0, [x1]\nstr x1, [sp, 8]\nstr x16, [sp, 16]\nmov w16, 4\nmov w0, 1\nmov w2, 1\nsvc 0x80\nldr x1, [sp, 8]\nldr x16, [sp, 16]\nldrb w0, [x1]\n"@,
        TokenType::GetChar => "strb w0, [x1]\nstr x1, [sp, 8]\nstr x16, [sp, 16]\nmov w16, 3\nmov w0, 0\nmov w2, 1\nsvc 0x80\nldr x1, [sp, 8]\nldr x16, [sp, 16]\nldrb w0, [x1]\n"@,
    }
}

/// The concatenated assembly text for the first `n` tokens.
pub open spec fn asm_body(s: Seq<Token>, m: Map<usize, usize>, n: int) -> Seq<char>
    decreases n,
{
    if n <= 0 {
        Seq::empty()
    } else {
        asm_body(s, m, n - 1) + asm_token_text(s[n - 1], (n - 1) as usize, m)
    }
}

/// The complete assembly artifact for a structurally valid token sequence.
pub open spec fn asm_text(s: Seq<Token>, mem: nat) -> Seq<char> {
    asm_prologue(mem) + asm_body(s, scan(s).map, s.len() as int) + asm_epilogue()
}

/// Emits ARM64 assembly for the token sequence with a memory region of
/// `memory_size` bytes, or reports the matcher's structural error.
pub fn generator_arm64(tokens: Vec<Token>, memory_size: usize) -> (r: Result<String, XBFError>)
    ensures
        brackets_ok(tokens@) ==> r is Ok && r->Ok_0@ == asm_text(tokens@, memory_size as nat),
        !brackets_ok(tokens@) ==> r is Err && r->Err_0 == structural_err_of(tokens@),
{
    let ghost s = tokens@;

    let brackets = match match_brackets(&tokens) {
        Ok(m) => m,
        Err(e) => {
            return Err(e);
        },
    };
    let ghost m = scan(s).map;

    let n = tokens.len();
    proof {
        lemma_scan_inv(s, s.len() as int);
    }

    let mut result = ".global _main\n\n.bss\n.comm mem, ".to_owned();
    append_dec(&mut result, memory_size);
    result.append(
        "\n\n.text\n_main:\nsub sp, sp, 16\nadrp x1, mem@PAGE\nadd x1, x1, mem@PAGEOFF\nmov w0, 0\n",
    );
    assert(result@ =~= asm_prologue(memory_size as nat));

    let mut i: usize = 0;
    while i < n
        invariant
            n == s.len(),
            tokens@ == s,
            i <= n,
            brackets_ok(s),
            m == scan(s).map,
            brackets@ == m,
            scan_inv(s, s.len() as int, scan(s)),
            result@ == asm_prologue(memory_size as nat) + asm_body(s, m, i as int),
        decreases n - i,
    {
        let ghost body_pre = asm_body(s, m, i as int);
        let t = &tokens[i];
        match t.get_typ() {
            TokenType::Inc(size) => {
                result.append("add w0, w0, ");
                append_dec(&mut result, *size);
                result.append("\n");
            },
            TokenType::Dec(size) => {
                result.append("sub w0, w0, ");
                append_dec(&mut result, *size);
                result.append("\n");
            },
            TokenType::Left(size) => {
                result.append("strb w0, [x1]\nsub x1, x1, ");
                append_dec(&mut result, *size);
                result.append("\nldrb w0, [x1]\n");
            },
            TokenType::Right(size) => {
                result.append("strb w0, [x1]\nadd x1, x1, ");
                append_dec(&mut result, *size);
                result.append("\nldrb w0, [x1]\n");
            },
            TokenType::BracketOpen => {
                proof {
                    if scan(s).stack.contains(i) {
                        let x = choose|x: int|
                            0 <= x < scan(s).stack.len() && scan(s).stack[x] == i;
                        assert(false);
                    }
                    assert(m.contains_key(i));
                }
                let j: usize = match brackets.get(&i) {
                    Some(j) => *j,
                    None => vstd::pervasive::unreached(),
                };
                result.append("cbz w0, _");
                append_dec(&mut result, j);
                result.append("\n_");
                append_dec(&mut result, i);
                result.append(":\n");
            },
            TokenType::BracketClose => {
                proof {
                    if scan(s).stack.contains(i) {
                        let x = choose|x: int|
                            0 <= x < scan(s).stack.len() && scan(s).stack[x] == i;
                        assert(false);
                    }
                    assert(m.contains_key(i));
                }
                let j: usize = match brackets.get(&i) {
                    Some(j) => *j,
                    None => vstd::pervasive::unreached(),
                };
                result.append("cbnz w0, _");
                append_dec(&mut result, j);
                result.append("\n_");
                append_dec(&mut result, i);
                result.append(":\n");
            },
            TokenType::PutChar => {
                result.append(
                    "strb w0, [x1]\nstr x1, [sp, 8]\nstr x16, [sp, 16]\nmov w16, 4\nmov w0, 1\nmov w2, 1\nsvc 0x80\nldr x1, [sp, 8]\nldr x16, [sp, 16]\nldrb w0, [x1]\n",
                );
            },
            TokenType::GetChar => {
                result.append(
                    "strb w0, [x1]\nstr x1, [sp, 8]\nstr x16, [sp, 16]\nmov w16, 3\nmov w0, 0\nmov w2, 1\nsvc 0x80\nldr x1, [sp, 8]\nldr x16, [sp, 16]\nldrb w0, [x1]\n",
                );
            },
        }
        proof {
            assert(asm_body(s, m, i as int + 1) == body_pre + asm_token_text(s[i as int], i, m));
            assert(result@ =~= asm_prologue(memory_size as nat) + asm_body(s, m, i as int + 1));
        }
        i = i + 1;
    }

    result.append("add sp, sp, 16\nmov w16, 1\nmov w0, 0\nsvc 0x80");
    proof {
        assert(result@ =~= asm_text(s, memory_size as nat));
    }
    Ok(result)
}

} // verus!
