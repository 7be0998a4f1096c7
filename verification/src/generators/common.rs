//! The bracket matcher: validates loop structure and builds the symmetric
//! map from each loop delimiter's position to its partner's position.

use std::collections::HashMap;

use vstd::prelude::*;

use crate::common::XBFError;
use crate::common::XBFErrorKind;
use crate::lexer::Token;
use crate::lexer::TokenType;

verus! {

broadcast use vstd::std_specs::hash::group_hash_axioms;

/// True for the two loop-delimiter token types.
pub open spec fn is_bracket(t: TokenType) -> bool {
    t is BracketOpen || t is BracketClose
}

/// The state of the matcher's single left-to-right pass: the pending-open
/// stack, the partial bracket map, the position of the first mismatched
/// closing delimiter if one was seen, and the number of matched pairs.
pub struct BracketScan {
    pub stack: Seq<usize>,
    pub map: Map<usize, usize>,
    pub err: Option<usize>,
    pub pairs: nat,
}

/// The matcher's state after scanning the first `n` tokens.  An open pushes
/// its position; a close pops the most recent open and records both
/// directions, or is the first error if no open is pending.  The state
/// freezes at the first error.
pub open spec fn scan_prefix(s: Seq<Token>, n: int) -> BracketScan
    decreases n,
{
    if n <= 0 {
        BracketScan { stack: Seq::empty(), map: Map::empty(), err: None, pairs: 0 }
    } else {
        let st = scan_prefix(s, n - 1);
        let i = (n - 1) as usize;
        if st.err is Some {
            st
        } else if s[n - 1].typ is BracketOpen {
            BracketScan { stack: st.stack.push(i), map: st.map, err: st.err, pairs: st.pairs }
        } else if s[n - 1].typ is BracketClose {
            if st.stack.len() == 0 {
                BracketScan { stack: st.stack, map: st.map, err: Some(i), pairs: st.pairs }
            } else {
                let j = st.stack.last();
                BracketScan {
                    stack: st.stack.drop_last(),
                    map: st.map.insert(i, j).insert(j, i),
                    err: None,
                    pairs: st.pairs + 1,
                }
            }
        } else {
            st
        }
    }
}

/// The matcher's state after scanning the whole token sequence.
pub open spec fn scan(s: Seq<Token>) -> BracketScan {
    scan_prefix(s, s.len() as int)
}

/// A token sequence is structurally valid when the scan finds no stray close
/// and leaves no open pending.
pub open spec fn brackets_ok(s: Seq<Token>) -> bool {
    scan(s).err is None && scan(s).stack.len() == 0
}

/// The structural error the matcher reports: the first stray close, or else
/// the oldest pending open.
pub open spec fn structural_err_of(s: Seq<Token>) -> XBFError {
    if scan(s).err is Some {
        let p = scan(s).err->0;
        XBFError { kind: XBFErrorKind::MismatchedClose, ln: s[p as int].ln, col: s[p as int].col }
    } else {
        let p = scan(s).stack[0];
        XBFError { kind: XBFErrorKind::MismatchedOpen, ln: s[p as int].ln, col: s[p as int].col }
    }
}

/// Everything the scan state guarantees about the first `n` tokens, when no
/// error has been seen: the map pairs opens below closes both ways, applying
/// it twice returns the key, its entries count two per pair, and the pending
/// stack holds exactly the not-yet-matched opens in ascending order.
pub open spec fn scan_inv(s: Seq<Token>, n: int, st: BracketScan) -> bool {
    &&& st.map.dom().finite()
    &&& st.map.dom().len() == 2 * st.pairs
    &&& (forall|k: usize|
        st.map.contains_key(k) ==> {
            &&& k < n
            &&& (#[trigger] st.map[k]) != k
            &&& st.map.contains_key(st.map[k])
            &&& st.map[st.map[k]] == k
            &&& is_bracket(s[k as int].typ)
            &&& (s[k as int].typ is BracketOpen <==> k < st.map[k])
            &&& (s[k as int].typ is BracketOpen <==> s[st.map[k] as int].typ is BracketClose)
        })
    &&& (forall|t: int|
        0 <= t < st.stack.len() ==> {
            &&& (#[trigger] st.stack[t]) < n
            &&& s[st.stack[t] as int].typ is BracketOpen
            &&& !st.map.contains_key(st.stack[t])
        })
    &&& (forall|t1: int, t2: int|
        0 <= t1 < t2 < st.stack.len() ==> st.stack[t1] < st.stack[t2])
    &&& (forall|i: int|
        0 <= i < n && is_bracket(s[i].typ) ==> st.map.contains_key(i as usize)
            || st.stack.contains(i as usize))
}

/// The scan state of an error-free prefix satisfies `scan_inv`.
pub proof fn lemma_scan_inv(s: Seq<Token>, n: int)
    requires
        0 <= n <= s.len() <= usize::MAX,
        scan_prefix(s, n).err is None,
    ensures
        scan_inv(s, n, scan_prefix(s, n)),
    decreases n,
{
    if n > 0 {
        let st = scan_prefix(s, n - 1);
        let st2 = scan_prefix(s, n);
        assert(st.err is None) by {
            if st.err is Some {
                assert(st2 == st);
            }
        }
        lemma_scan_inv(s, n - 1);
        let i = (n - 1) as usize;
        if s[n - 1].typ is BracketOpen {
            assert(st2.stack =~= st.stack.push(i));
            assert forall|x: int| 0 <= x < n && is_bracket(s[x].typ) implies st2.map.contains_key(
                x as usize,
            ) || st2.stack.contains(x as usize) by {
                if x < n - 1 {
                    if st.stack.contains(x as usize) {
                        let t = choose|t: int|
                            0 <= t < st.stack.len() && st.stack[t] == x as usize;
                        assert(st2.stack[t] == x as usize);
                    }
                } else {
                    assert(st2.stack[st.stack.len() as int] == i);
                }
            }
        } else if s[n - 1].typ is BracketClose {
            if st.stack.len() == 0 {
                // the scan records its first error here; nothing to show
            } else {
                let j = st.stack.last();
                let m2 = st.map.insert(i, j).insert(j, i);
                assert(st.stack[st.stack.len() - 1] == j);
                assert(j < n - 1 && s[j as int].typ is BracketOpen && !st.map.contains_key(j));
                assert(!st.map.contains_key(i)) by {
                    if st.map.contains_key(i) {
                        assert(st.map[i] != i);
                    }
                }
                assert(j < i);
                assert(m2.dom() =~= st.map.dom().insert(i).insert(j));
                vstd::set::axiom_set_insert_finite(st.map.dom(), i);
                vstd::set::axiom_set_insert_finite(st.map.dom().insert(i), j);
                vstd::set::axiom_set_insert_len(st.map.dom(), i);
                vstd::set::axiom_set_insert_len(st.map.dom().insert(i), j);
                assert forall|k: usize| m2.contains_key(k) implies {
                    &&& k < n
                    &&& (#[trigger] m2[k]) != k
                    &&& m2.contains_key(m2[k])
                    &&& m2[m2[k]] == k
                    &&& is_bracket(s[k as int].typ)
                    &&& (s[k as int].typ is BracketOpen <==> k < m2[k])
                    &&& (s[k as int].typ is BracketOpen <==> s[m2[k] as int].typ is BracketClose)
                } by {
                    if k == i || k == j {
                    } else {
                        assert(st.map.contains_key(k));
                        assert(m2[k] == st.map[k]);
                        assert(st.map[k] != i && st.map[k] != j);
                        assert(m2[m2[k]] == k);
                    }
                }
                assert forall|t: int| 0 <= t < st2.stack.len() implies {
                    &&& (#[trigger] st2.stack[t]) < n
                    &&& s[st2.stack[t] as int].typ is BracketOpen
                    &&& !st2.map.contains_key(st2.stack[t])
                } by {
                    assert(st2.stack[t] == st.stack[t]);
                    assert(st.stack[t] < st.stack[st.stack.len() - 1]);
                }
                assert forall|x: int| 0 <= x < n && is_bracket(s[x].typ) implies st2.map.contains_key(
                    x as usize,
                ) || st2.stack.contains(x as usize) by {
                    if x < n - 1 && !st.map.contains_key(x as usize) {
                        let t = choose|t: int|
                            0 <= t < st.stack.len() && st.stack[t] == x as usize;
                        if t < st.stack.len() - 1 {
                            assert(st2.stack[t] == x as usize);
                        }
                    }
                }
            }
        } else {
            assert(st2 == st);
        }
    }
}

/// The bracket map of a structurally valid token sequence is a bijection
/// pairing opens with closes: it has two entries for every matched pair, and
/// mapping any key twice returns the original key.
pub proof fn lemma_bracket_map_bijection(s: Seq<Token>)
    requires
        brackets_ok(s),
        s.len() <= usize::MAX,
    ensures
        scan(s).map.dom().finite(),
        scan(s).map.dom().len() == 2 * scan(s).pairs,
        forall|k: usize|
            scan(s).map.contains_key(k) ==> (#[trigger] scan(s).map[scan(s).map[k]]) == k,
        forall|k: usize|
            scan(s).map.contains_key(k) ==> scan(s).map.contains_key(#[trigger] scan(s).map[k]),
        forall|i: int|
            0 <= i < s.len() ==> (is_bracket(s[i].typ) <==> scan(s).map.contains_key(i as usize)),
{
    lemma_scan_inv(s, s.len() as int);
    let st = scan(s);
    assert forall|i: int|
        0 <= i < s.len() implies (is_bracket(s[i].typ) <==> st.map.contains_key(
        i as usize,
    )) by {
        if st.map.contains_key(i as usize) {
            assert(st.map[i as usize] != i as usize);
        }
        if is_bracket(s[i].typ) && st.stack.contains(i as usize) {
            let t = choose|t: int| 0 <= t < st.stack.len() && st.stack[t] == i as usize;
            assert(false);
        }
    }
}

/// Once the scan has seen its first error, the state never changes again.
pub proof fn lemma_scan_err_sticky(s: Seq<Token>, n1: int, n2: int)
    requires
        0 <= n1 <= n2 <= s.len(),
        scan_prefix(s, n1).err is Some,
    ensures
        scan_prefix(s, n2) == scan_prefix(s, n1),
    decreases n2 - n1,
{
    if n1 < n2 {
        lemma_scan_err_sticky(s, n1, n2 - 1);
    }
}

/// Builds the bracket map for a token sequence, or reports the first
/// structural error of the single left-to-right pass: a stray closing
/// delimiter as soon as it is met, or else the oldest pending open after
/// the scan.
pub fn match_brackets(tokens: &Vec<Token>) -> (r: Result<HashMap<usize, usize>, XBFError>)
    ensures
        match r {
            Ok(m) => brackets_ok(tokens@) && m@ == scan(tokens@).map,
            Err(e) => !brackets_ok(tokens@) && e == structural_err_of(tokens@),
        },
{
    let ghost s = tokens@;
    let mut matches: HashMap<usize, usize> = HashMap::new();
    let mut stack: Vec<usize> = Vec::new();

    let n = tokens.len();
    let mut i: usize = 0;
    while i < n
        invariant
            n == s.len(),
            tokens@ == s,
            i <= n,
            scan_prefix(s, i as int).err is None,
            stack@ == scan_prefix(s, i as int).stack,
            matches@ == scan_prefix(s, i as int).map,
        decreases n - i,
    {
        let ghost st = scan_prefix(s, i as int);
        let t = &tokens[i];
        match t.get_typ() {
            TokenType::BracketOpen => {
                stack.push(i);
            }
            TokenType::BracketClose => {
                match stack.pop() {
                    Some(opening) => {
                        proof {
                            lemma_scan_inv(s, i as int);
                        }
                        matches.insert(i, opening);
                        matches.insert(opening, i);
                    }
                    None => {
                        proof {
                            assert(scan_prefix(s, i as int + 1).err == Some(i));
                            lemma_scan_err_sticky(s, i as int + 1, s.len() as int);
                        }
                        return Err(XBFError {
                            kind: XBFErrorKind::MismatchedClose,
                            ln: t.ln,
                            col: t.col,
                        });
                    }
                }
            }
            _ => {}
        }
        i = i + 1;
        proof {
            assert(stack@ =~= scan_prefix(s, i as int).stack);
        }
    }

    if stack.len() > 0 {
        let oldest = stack[0];
        proof {
            lemma_scan_inv(s, s.len() as int);
        }
        let t = &tokens[oldest];
        return Err(XBFError { kind: XBFErrorKind::MismatchedOpen, ln: t.ln, col: t.col });
    }

    Ok(matches)
}

} // verus!
