//! The lexer: raw source bytes to an ordered token sequence.
//!
//! Any byte that is not one of the eight command characters is skipped (it
//! acts as a comment) but still advances position tracking.  Consecutive
//! identical accumulation or movement characters are coalesced into a single
//! token carrying the run length; bracket and I/O characters always produce
//! single tokens.

use vstd::prelude::*;
use vstd::string::StringSliceAdditionalSpecFns;

use crate::common::err_location;
use crate::common::err_prefix;
use crate::common::try_index;

verus! {

/// A token's variant tag.  The accumulation and movement variants carry the
/// run length of the coalesced source characters.
#[derive(Clone, Copy, Debug, PartialEq, Eq, Structural)]
pub enum TokenType {
    Inc(usize),
    Dec(usize),
    Left(usize),
    Right(usize),
    BracketOpen,
    BracketClose,
    PutChar,
    GetChar,
}

/// One token, carrying the 1-based source line and column captured at the
/// token's start.  Tokens are created once by the lexer and never mutated.
#[derive(Clone, Copy, Debug, PartialEq, Eq, Structural)]
pub struct Token {
    pub typ: TokenType,
    pub col: usize,
    pub ln: usize,
}

/// The byte values of the eight command characters and of the line feed.
pub const PLUS: u8 = 43;

pub const MINUS: u8 = 45;

pub const LESS: u8 = 60;

pub const GREATER: u8 = 62;

pub const OPEN: u8 = 91;

pub const CLOSE: u8 = 93;

pub const DOT: u8 = 46;

pub const COMMA: u8 = 44;

pub const LINE_FEED: u8 = 10;

/// True for the four characters that coalesce into run-length tokens.
pub open spec fn is_run_byte(b: u8) -> bool {
    b == PLUS || b == MINUS || b == LESS || b == GREATER
}

/// True for the four characters that always form single tokens.
pub open spec fn is_single_byte(b: u8) -> bool {
    b == OPEN || b == CLOSE || b == DOT || b == COMMA
}

/// The token type for a run of `size` copies of the run byte `b`.
pub open spec fn spec_mct(b: u8, size: usize) -> TokenType {
    if b == PLUS {
        TokenType::Inc(size)
    } else if b == MINUS {
        TokenType::Dec(size)
    } else if b == LESS {
        TokenType::Left(size)
    } else if b == GREATER {
        TokenType::Right(size)
    } else {
        arbitrary()
    }
}

/// The token type for a single-token byte.
pub open spec fn spec_single(b: u8) -> TokenType {
    if b == OPEN {
        TokenType::BracketOpen
    } else if b == CLOSE {
        TokenType::BracketClose
    } else if b == DOT {
        TokenType::PutChar
    } else {
        TokenType::GetChar
    }
}

/// The column and line after consuming the byte at `i`: consuming a line
/// feed starts the next line at column 1; any other byte advances the
/// column by one.
pub open spec fn adv_pos(text: Seq<u8>, i: int, col: int, ln: int) -> (int, int) {
    if 0 <= i < text.len() && text[i] == LINE_FEED {
        (1, ln + 1)
    } else {
        (col + 1, ln)
    }
}

/// The column and line after consuming `k` bytes starting at `i`.
pub open spec fn adv_pos_n(text: Seq<u8>, i: int, col: int, ln: int, k: nat) -> (int, int)
    decreases k,
{
    if k == 0 {
        (col, ln)
    } else {
        let p = adv_pos(text, i, col, ln);
        adv_pos_n(text, i + 1, p.0, p.1, (k - 1) as nat)
    }
}

/// The length of the maximal run of bytes equal to `text[i]` starting at `i`.
pub open spec fn run_len(text: Seq<u8>, i: int) -> nat
    decreases text.len() - i,
{
    if i < 0 || i >= text.len() {
        0
    } else if i + 1 < text.len() && text[i + 1] == text[i] {
        1 + run_len(text, i + 1)
    } else {
        1
    }
}

pub proof fn lemma_run_len_bounds(text: Seq<u8>, i: int)
    requires
        0 <= i < text.len(),
    ensures
        1 <= run_len(text, i) <= text.len() - i,
    decreases text.len() - i,
{
    if i + 1 < text.len() && text[i + 1] == text[i] {
        lemma_run_len_bounds(text, i + 1);
    }
}

/// A maximal run of `k` equal bytes starting at `i` has run length exactly `k`.
pub proof fn lemma_run_len_exact(text: Seq<u8>, i: int, k: int)
    requires
        0 <= i,
        1 <= k,
        i + k <= text.len(),
        forall|j: int| i <= j < i + k ==> text[j] == text[i],
        i + k == text.len() || text[i + k] != text[i],
    ensures
        run_len(text, i) == k,
    decreases k,
{
    if k > 1 {
        assert(text[i + 1] == text[i]);
        lemma_run_len_exact(text, i + 1, k - 1);
    }
}

/// The token sequence produced by scanning `text` from index `i` with the
/// given position state.  This is the mathematical model of the lexer.
pub open spec fn lex_from(text: Seq<u8>, i: int, col: int, ln: int) -> Seq<Token>
    decreases text.len() - i,
        via lex_from_decreases
{
    if i < 0 || i >= text.len() {
        Seq::empty()
    } else {
        let b = text[i];
        if is_run_byte(b) {
            let k = run_len(text, i);
            let p = adv_pos_n(text, i, col, ln, k);
            seq![
                Token { typ: spec_mct(b, k as usize), col: col as usize, ln: ln as usize },
            ] + lex_from(text, i + k, p.0, p.1)
        } else if is_single_byte(b) {
            let p = adv_pos(text, i, col, ln);
            seq![
                Token { typ: spec_single(b), col: col as usize, ln: ln as usize },
            ] + lex_from(text, i + 1, p.0, p.1)
        } else {
            let p = adv_pos(text, i, col, ln);
            lex_from(text, i + 1, p.0, p.1)
        }
    }
}

#[via_fn]
proof fn lex_from_decreases(text: Seq<u8>, i: int, col: int, ln: int) {
    if 0 <= i < text.len() && is_run_byte(text[i]) {
        lemma_run_len_bounds(text, i);
    }
}

/// The tokens of a whole source text, scanned from its first byte at line 1,
/// column 1.
pub open spec fn lex_spec(text: Seq<u8>) -> Seq<Token> {
    lex_from(text, 0, 1, 1)
}

impl Token {
    pub fn new(typ: TokenType, col: usize, ln: usize) -> (t: Token)
        ensures
            t == (Token { typ, col, ln }),
    {
        Token { typ, col, ln }
    }

    pub fn get_typ(&self) -> (t: &TokenType)
        ensures
            *t == self.typ,
    {
        &self.typ
    }

    /// The location prefix used when reporting an error at this token.
    pub fn err(&self) -> (r: String)
        ensures
            r@ == err_prefix(self.ln as nat, self.col as nat),
    {
        err_location(self.ln, self.col)
    }
}

/// The lexer's scanning state: the source bytes, the index of the next byte,
/// and the 1-based column and line of that byte.
pub struct Lexer {
    pub text: Vec<u8>,
    pub idx: usize,
    pub col: usize,
    pub ln: usize,
}

impl Lexer {
    /// Position counters never run more than one step ahead of the index, so
    /// advancing them cannot overflow while the index is in bounds.
    pub open spec fn wf(&self) -> bool {
        &&& self.col <= self.idx + 1
        &&& self.ln <= self.idx + 1
        &&& self.text@.len() < usize::MAX
    }

    pub fn new(text: &str) -> (r: Lexer)
        requires
            text.spec_bytes().len() < usize::MAX,
        ensures
            r.text@ == text.spec_bytes(),
            r.idx == 0 && r.col == 1 && r.ln == 1,
            r.wf(),
    {
        Lexer { text: vstd::slice::slice_to_vec(text.as_bytes()), idx: 0, col: 1, ln: 1 }
    }

    fn mct(ch: &u8, size: usize) -> (t: TokenType)
        requires
            is_run_byte(*ch),
        ensures
            t == spec_mct(*ch, size),
    {
        if *ch == PLUS {
            TokenType::Inc(size)
        } else if *ch == MINUS {
            TokenType::Dec(size)
        } else if *ch == LESS {
            TokenType::Left(size)
        } else {
            TokenType::Right(size)
        }
    }

    /// Consumes one byte: the index advances, and so does the column, except
    /// that consuming a line feed starts the next line at column 1.
    fn adv(&mut self)
        requires
            old(self).wf(),
            old(self).idx < old(self).text@.len(),
        ensures
            final(self).text == old(self).text,
            final(self).idx == old(self).idx + 1,
            (final(self).col as int, final(self).ln as int) == adv_pos(
                old(self).text@,
                old(self).idx as int,
                old(self).col as int,
                old(self).ln as int,
            ),
            final(self).wf(),
    {
        let at_newline = match try_index(&self.text, self.idx) {
            Some(ch) => *ch == LINE_FEED,
            None => false,
        };
        self.idx = self.idx + 1;
        if at_newline {
            self.ln = self.ln + 1;
            self.col = 1;
        } else {
            self.col = self.col + 1;
        }
    }

    /// Scans the remaining source into tokens.  The result is exactly the
    /// model `lex_from` applied to the lexer's starting state; scanning a
    /// whole source from `Lexer::new` yields `lex_spec` of its bytes.
    pub fn lex(&mut self) -> (tokens: Vec<Token>)
        requires
            old(self).wf(),
        ensures
            final(self).text@ == old(self).text@,
            final(self).wf(),
            tokens@ == lex_from(
                old(self).text@,
                old(self).idx as int,
                old(self).col as int,
                old(self).ln as int,
            ),
    {
        let mut tokens: Vec<Token> = Vec::new();

        let ghost t0 = self.text@;
        let ghost i0 = self.idx as int;
        let ghost c0 = self.col as int;
        let ghost l0 = self.ln as int;

        while self.idx < self.text.len()
            invariant
                self.wf(),
                self.text@ == t0,
                tokens@ + lex_from(t0, self.idx as int, self.col as int, self.ln as int)
                    == lex_from(t0, i0, c0, l0),
            decreases t0.len() - self.idx,
        {
            let ch: u8 = self.text[self.idx];
            let ghost pre_toks = tokens@;
            let ghost rest = lex_from(t0, self.idx as int, self.col as int, self.ln as int);
            if ch == PLUS || ch == MINUS || ch == LESS || ch == GREATER {
                let tok_col = self.col;
                let tok_ln = self.ln;
                let ghost start = self.idx as int;
                let ghost cs = self.col as int;
                let ghost ls = self.ln as int;
                let mut size: usize = 0;

                while self.idx < self.text.len() && self.text[self.idx] == ch
                    invariant
                        self.wf(),
                        self.text@ == t0,
                        0 <= start < t0.len(),
                        t0[start] == ch,
                        self.idx as int == start + size,
                        self.idx <= t0.len(),
                        forall|j: int| start <= j < self.idx as int ==> t0[j] == ch,
                        (self.col as int, self.ln as int) == adv_pos_n(
                            t0,
                            start,
                            cs,
                            ls,
                            size as nat,
                        ),
                    decreases t0.len() - self.idx,
                {
                    proof {
                        lemma_adv_pos_n_snoc(t0, start, cs, ls, size as nat);
                    }
                    size = size + 1;
                    self.adv();
                }

                proof {
                    if size == 0 {
                        assert(t0[self.idx as int] == ch);
                        assert(false);
                    }
                    lemma_run_len_exact(t0, start, size as int);
                }
                tokens.push(Token::new(Lexer::mct(&ch, size), tok_col, tok_ln));
                proof {
                    assert(rest == seq![
                        Token { typ: spec_mct(ch, size), col: tok_col, ln: tok_ln },
                    ] + lex_from(t0, self.idx as int, self.col as int, self.ln as int));
                    assert(tokens@ + lex_from(t0, self.idx as int, self.col as int, self.ln as int)
                        =~= lex_from(t0, i0, c0, l0));
                }
            } else if ch == OPEN {
                tokens.push(Token::new(TokenType::BracketOpen, self.col, self.ln));
                self.adv();
                proof {
                    assert(tokens@ + lex_from(t0, self.idx as int, self.col as int, self.ln as int)
                        =~= lex_from(t0, i0, c0, l0));
                }
            } else if ch == CLOSE {
                tokens.push(Token::new(TokenType::BracketClose, self.col, self.ln));
                self.adv();
                proof {
                    assert(tokens@ + lex_from(t0, self.idx as int, self.col as int, self.ln as int)
                        =~= lex_from(t0, i0, c0, l0));
                }
            } else if ch == DOT {
                tokens.push(Token::new(TokenType::PutChar, self.col, self.ln));
                self.adv();
                proof {
                    assert(tokens@ + lex_from(t0, self.idx as int, self.col as int, self.ln as int)
                        =~= lex_from(t0, i0, c0, l0));
                }
            } else if ch == COMMA {
                tokens.push(Token::new(TokenType::GetChar, self.col, self.ln));
                self.adv();
                proof {
                    assert(tokens@ + lex_from(t0, self.idx as int, self.col as int, self.ln as int)
                        =~= lex_from(t0, i0, c0, l0));
                }
            } else {
                self.adv();
                proof {
                    assert(tokens@ + lex_from(t0, self.idx as int, self.col as int, self.ln as int)
                        =~= lex_from(t0, i0, c0, l0));
                }
            }
        }
        tokens
    }
}


/// The character a run-length token coalesces, if it is one.
pub open spec fn run_char_of(t: TokenType) -> Option<u8> {
    match t {
        TokenType::Inc(_) => Some(PLUS),
        TokenType::Dec(_) => Some(MINUS),
        TokenType::Left(_) => Some(LESS),
        TokenType::Right(_) => Some(GREATER),
        _ => None,
    }
}

/// The repeated raw characters a single token re-expands to.
pub open spec fn expand_token(t: TokenType) -> Seq<u8> {
    match t {
        TokenType::Inc(k) => Seq::new(k as nat, |x: int| PLUS),
        TokenType::Dec(k) => Seq::new(k as nat, |x: int| MINUS),
        TokenType::Left(k) => Seq::new(k as nat, |x: int| LESS),
        TokenType::Right(k) => Seq::new(k as nat, |x: int| GREATER),
        TokenType::BracketOpen => seq![OPEN],
        TokenType::BracketClose => seq![CLOSE],
        TokenType::PutChar => seq![DOT],
        TokenType::GetChar => seq![COMMA],
    }
}

/// The raw characters a token-type sequence re-expands to.
pub open spec fn expand(ts: Seq<TokenType>) -> Seq<u8>
    decreases ts.len(),
{
    if ts.len() == 0 {
        Seq::empty()
    } else {
        expand_token(ts[0]) + expand(ts.drop_first())
    }
}

/// True unless the token is a run-length token of length zero.
pub open spec fn positive_run(t: TokenType) -> bool {
    match t {
        TokenType::Inc(k) => k >= 1,
        TokenType::Dec(k) => k >= 1,
        TokenType::Left(k) => k >= 1,
        TokenType::Right(k) => k >= 1,
        _ => true,
    }
}

/// The shape in which runs cannot merge on re-lexing: every run length is
/// positive and no two adjacent tokens coalesce the same character.  The
/// lexer's own output has this shape unless a skipped byte separated two
/// runs of the same character.
pub open spec fn coalesced(ts: Seq<TokenType>) -> bool {
    &&& (forall|i: int| 0 <= i < ts.len() ==> positive_run(#[trigger] ts[i]))
    &&& (forall|i: int|
        0 <= i && i + 1 < ts.len() ==> !(run_char_of(#[trigger] ts[i]) is Some && run_char_of(
            ts[i],
        ) == run_char_of(ts[i + 1])))
}

/// The token types of a token sequence, positions forgotten.
pub open spec fn types_of(toks: Seq<Token>) -> Seq<TokenType> {
    toks.map_values(|t: Token| t.typ)
}

proof fn lemma_expand_token_first(t: TokenType)
    requires
        positive_run(t),
    ensures
        expand_token(t).len() >= 1,
        run_char_of(t) is Some ==> forall|j: int|
            0 <= j < expand_token(t).len() ==> expand_token(t)[j] == run_char_of(t)->0,
        run_char_of(t) is None ==> expand_token(t).len() == 1 && is_single_byte(
            expand_token(t)[0],
        ) && spec_single(expand_token(t)[0]) == t,
{
}

#[verifier::rlimit(60)]
proof fn lemma_relex_head(ts: Seq<TokenType>, text: Seq<u8>, i: int)
    requires
        coalesced(ts),
        ts.len() > 0,
        0 <= i <= text.len(),
        text.subrange(i, text.len() as int) == expand(ts),
    ensures
        1 <= expand_token(ts[0]).len(),
        i + expand_token(ts[0]).len() <= text.len(),
        text.subrange(i + expand_token(ts[0]).len(), text.len() as int) == expand(
            ts.drop_first(),
        ),
        coalesced(ts.drop_first()),
        run_char_of(ts[0]) is Some ==> is_run_byte(text[i]) && run_len(text, i) == expand_token(
            ts[0],
        ).len() && spec_mct(text[i], expand_token(ts[0]).len() as usize) == ts[0],
        run_char_of(ts[0]) is None ==> expand_token(ts[0]).len() == 1 && is_single_byte(text[i])
            && spec_single(text[i]) == ts[0],
{
    let sub = text.subrange(i, text.len() as int);
    let t0 = ts[0];
    let rest = ts.drop_first();
    let e0 = expand_token(t0);
    lemma_expand_token_first(t0);
    let k = e0.len() as int;
    assert(expand(ts) == e0 + expand(rest));
    assert(sub.len() == e0.len() + expand(rest).len());
    assert(forall|j: int| 0 <= j < k ==> text[i + j] == e0[j]) by {
        assert(forall|j: int| 0 <= j < k ==> sub[j] == e0[j]);
    }
    assert(text.subrange(i + k, text.len() as int) =~= expand(rest)) by {
        assert forall|j: int|
            0 <= j < text.len() - (i + k) implies text.subrange(
            i + k,
            text.len() as int,
        )[j] == expand(rest)[j] by {
            assert(text.subrange(i + k, text.len() as int)[j] == text[i + k + j]);
            assert(sub[k + j] == text[i + k + j]);
            assert(sub[k + j] == expand(rest)[j]);
        }
    }
    assert(coalesced(rest)) by {
        assert(forall|j: int| 0 <= j < rest.len() ==> rest[j] == ts[j + 1]);
        assert forall|j: int| 0 <= j < rest.len() implies positive_run(#[trigger] rest[j]) by {
            assert(positive_run(ts[j + 1]));
        }
        assert forall|j: int|
            0 <= j && j + 1 < rest.len() implies !(run_char_of(#[trigger] rest[j]) is Some
            && run_char_of(rest[j]) == run_char_of(rest[j + 1])) by {
            assert(!(run_char_of(ts[j + 1]) is Some && run_char_of(ts[j + 1]) == run_char_of(
                ts[j + 2],
            )));
        }
    }
    if i + k < text.len() {
        assert(rest.len() > 0);
        lemma_expand_token_first(rest[0]);
        assert(expand(rest) == expand_token(rest[0]) + expand(rest.drop_first()));
        assert(text[i + k] == expand(rest)[0]);
        assert(expand(rest)[0] == expand_token(rest[0])[0]);
        assert(rest[0] == ts[1]);
    }
    if run_char_of(t0) is Some {
        let c = run_char_of(t0)->0;
        assert(text[i] == c && is_run_byte(c));
        if i + k < text.len() {
            assert(text[i + k] != c) by {
                if run_char_of(ts[1]) is Some {
                    assert(run_char_of(ts[1]) != run_char_of(ts[0]));
                } else {
                    assert(is_single_byte(text[i + k]));
                }
            }
        }
        assert forall|j: int| i <= j < i + k implies text[j] == text[i] by {
            assert(text[i + (j - i)] == e0[j - i]);
            assert(text[i + 0] == e0[0]);
        }
        lemma_run_len_exact(text, i, k);
        assert(spec_mct(c, k as usize) == t0);
    } else {
        assert(k == 1);
        assert(text[i] == e0[0]);
    }
}

proof fn lemma_types_cons(t0: TokenType, col: usize, ln: usize, tail: Seq<Token>, ts: Seq<TokenType>)
    requires
        ts.len() > 0,
        ts[0] == t0,
        types_of(tail) == ts.drop_first(),
    ensures
        types_of(seq![Token { typ: t0, col, ln }] + tail) == ts,
{
    let lhs = seq![Token { typ: t0, col, ln }] + tail;
    assert(types_of(tail).len() == tail.len());
    assert(types_of(lhs).len() == lhs.len());
    assert(lhs.len() == ts.len());
    assert forall|j: int| 0 <= j < ts.len() implies types_of(lhs)[j] == ts[j] by {
        assert(types_of(lhs)[j] == lhs[j].typ);
        if j == 0 {
            assert(lhs[0].typ == t0);
        } else {
            assert(lhs[j] == tail[j - 1]);
            assert(types_of(tail)[j - 1] == tail[j - 1].typ);
            assert(ts.drop_first()[j - 1] == ts[j]);
        }
    }
    assert(types_of(lhs) =~= ts);
}

#[verifier::rlimit(50)]
proof fn lemma_relex_from(ts: Seq<TokenType>, text: Seq<u8>, i: int, col: int, ln: int)
    requires
        coalesced(ts),
        0 <= i <= text.len(),
        text.subrange(i, text.len() as int) == expand(ts),
    ensures
        types_of(lex_from(text, i, col, ln)) == ts,
    decreases ts.len(),
{
    if ts.len() == 0 {
        assert(text.subrange(i, text.len() as int).len() == 0);
        assert(types_of(lex_from(text, i, col, ln)) =~= ts);
    } else {
        lemma_relex_head(ts, text, i);
        let t0 = ts[0];
        let rest = ts.drop_first();
        let k = expand_token(t0).len() as int;
        if run_char_of(t0) is Some {
            let p = adv_pos_n(text, i, col, ln, k as nat);
            assert(lex_from(text, i, col, ln) == seq![
                Token { typ: t0, col: col as usize, ln: ln as usize },
            ] + lex_from(text, i + k, p.0, p.1));
            lemma_relex_from(rest, text, i + k, p.0, p.1);
            lemma_types_cons(t0, col as usize, ln as usize, lex_from(text, i + k, p.0, p.1), ts);
        } else {
            let p = adv_pos(text, i, col, ln);
            assert(lex_from(text, i, col, ln) == seq![
                Token { typ: t0, col: col as usize, ln: ln as usize },
            ] + lex_from(text, i + 1, p.0, p.1));
            lemma_relex_from(rest, text, i + 1, p.0, p.1);
            lemma_types_cons(t0, col as usize, ln as usize, lex_from(text, i + 1, p.0, p.1), ts);
        }
    }
}

/// Re-expanding each token of a coalesced token sequence back into repeated
/// raw characters and re-lexing the result reproduces the token types.  The
/// coalesced shape is necessary: a skipped byte between two runs of the same
/// character leaves two adjacent tokens that a re-lex would merge.
pub proof fn lemma_relex_roundtrip(ts: Seq<TokenType>)
    requires
        coalesced(ts),
    ensures
        types_of(lex_spec(expand(ts))) == ts,
{
    assert(expand(ts).subrange(0, expand(ts).len() as int) =~= expand(ts));
    lemma_relex_from(ts, expand(ts), 0, 1, 1);
}

/// A source that is one run of `k` identical accumulation or movement
/// characters lexes to exactly one token, carrying run length `k`.
pub proof fn lemma_lex_single_run(c: u8, k: usize)
    requires
        is_run_byte(c),
        k >= 1,
    ensures
        lex_spec(Seq::new(k as nat, |x: int| c)) == seq![
            Token { typ: spec_mct(c, k), col: 1, ln: 1 },
        ],
{
    let text = Seq::new(k as nat, |x: int| c);
    lemma_run_len_exact(text, 0, k as int);
    let p = adv_pos_n(text, 0, 1, 1, k as nat);
    assert(lex_from(text, k as int, p.0, p.1) =~= Seq::<Token>::empty());
    assert(lex_spec(text) =~= seq![Token { typ: spec_mct(c, k), col: 1, ln: 1 }]);
}

/// A single byte that is no command, standing between two runs of the same
/// accumulation or movement character, splits them into two tokens.
pub proof fn lemma_lex_run_split(c: u8, x: u8, a: usize, d: usize)
    requires
        is_run_byte(c),
        !is_run_byte(x),
        !is_single_byte(x),
        a >= 1,
        d >= 1,
    ensures
        types_of(
            lex_spec(Seq::new(a as nat, |p: int| c) + seq![x] + Seq::new(d as nat, |p: int| c)),
        ) == seq![spec_mct(c, a), spec_mct(c, d)],
{
    let text = Seq::new(a as nat, |p: int| c) + seq![x] + Seq::new(d as nat, |p: int| c);
    assert(text.len() == a + 1 + d);
    assert(forall|j: int| 0 <= j < a ==> text[j] == c);
    assert(text[a as int] == x);
    assert(x != c);
    lemma_run_len_exact(text, 0, a as int);
    let p1 = adv_pos_n(text, 0, 1, 1, a as nat);
    assert(lex_from(text, 0, 1, 1) == seq![
        Token { typ: spec_mct(c, a), col: 1, ln: 1 },
    ] + lex_from(text, a as int, p1.0, p1.1));
    let p2 = adv_pos(text, a as int, p1.0, p1.1);
    assert(lex_from(text, a as int, p1.0, p1.1) == lex_from(text, a as int + 1, p2.0, p2.1));
    assert(forall|j: int| a + 1 <= j < text.len() ==> text[j] == c);
    lemma_run_len_exact(text, a as int + 1, d as int);
    let p3 = adv_pos_n(text, a as int + 1, p2.0, p2.1, d as nat);
    assert(lex_from(text, a as int + 1, p2.0, p2.1) == seq![
        Token { typ: spec_mct(c, d), col: p2.0 as usize, ln: p2.1 as usize },
    ] + lex_from(text, a + 1 + d, p3.0, p3.1));
    assert(lex_from(text, a + 1 + d, p3.0, p3.1) =~= Seq::<Token>::empty());
    assert(types_of(lex_spec(text)) =~= seq![spec_mct(c, a), spec_mct(c, d)]);
}

proof fn lemma_adv_pos_n_snoc(text: Seq<u8>, i: int, col: int, ln: int, k: nat)
    ensures
        adv_pos_n(text, i, col, ln, k + 1) == ({
            let p = adv_pos_n(text, i, col, ln, k);
            adv_pos(text, i + k, p.0, p.1)
        }),
    decreases k,
{
    let p1 = adv_pos(text, i, col, ln);
    if k == 0 {
        assert(adv_pos_n(text, i, col, ln, 1) == adv_pos_n(text, i + 1, p1.0, p1.1, 0));
        assert(adv_pos_n(text, i + 1, p1.0, p1.1, 0) == p1);
        assert(adv_pos_n(text, i, col, ln, 0) == (col, ln));
    } else {
        lemma_adv_pos_n_snoc(text, i + 1, p1.0, p1.1, (k - 1) as nat);
        assert(adv_pos_n(text, i, col, ln, k + 1) == adv_pos_n(text, i + 1, p1.0, p1.1, k));
        assert(adv_pos_n(text, i, col, ln, k) == adv_pos_n(text, i + 1, p1.0, p1.1, (k - 1) as nat));
    }
}

} // verus!
