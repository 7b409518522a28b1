//! Recursive-descent parsing of token sequences into expression trees.
//!
//! The grammar, lowest precedence first:
//!
//! ```text
//! Expr    := Term
//! Term    := Factor (('+' | '-') Factor)*
//! Factor  := Primary (('*' | '/') Primary)*
//! Primary := '(' Expr ')' | Die | Constant
//! ```
//!
//! Malformed content never aborts the parse: every error is recorded in an
//! ordered list and the offending subtree is replaced by the literal `0`, so
//! a root node always comes back.  The caller decides whether to trust it by
//! checking whether the error list is empty.
//!
//! The cursor never moves past the final token: once there, that token is
//! peeked — and consumed — in place, acting as an end-of-stream sentinel.
use vstd::prelude::*;

use crate::arith::sat64;
use crate::ast::{AstExpr, BinOp};
use crate::text::{
    all_digits, dec_val, parse_digits_checked, parse_digits_saturating, string_chars, subvec,
};
use crate::token::{
    find_d, first_d, kind_of, lemma_first_d_char, lex_fail_text, range_digits, spec_tokenize,
    token_text, tokenize_expr, toks_view, Token, TokenKind, TokenV,
};

verus! {

/// The outcome of one parsing step: the node built, the cursor position
/// after it, and the error messages it recorded, in order.
pub struct PStep {
    pub node: AstExpr,
    pub pos: int,
    pub errs: Seq<Seq<char>>,
}

/// The message recorded for a die token whose text does not split into
/// `<digits> 'd' <digits or nothing>`.
pub open spec fn die_msg_bad(text: Seq<char>) -> Seq<char> {
    "\""@ + text + "\" was not recognized as a valid number or dice expression (Code: 3)"@
}

/// The message recorded when a die part that should be numeric fails to
/// parse.
pub open spec fn die_msg_num(text: Seq<char>) -> Seq<char> {
    "\""@ + text + "\" NUMBER in dice expression was not purely numeric"@
}

/// The message recorded for an unmatched parenthesis.
pub open spec fn paren_msg() -> Seq<char> {
    "Unmatched parenthesis"@
}

/// The message recorded when no primary can be parsed.
pub open spec fn cnp_msg() -> Seq<char> {
    "Could not parse input"@
}

/// Where the cursor stands after consuming at `pos`: one step forward, but
/// never past the final token.
pub open spec fn consume_pos(toks: Seq<TokenV>, pos: int) -> int {
    if pos < toks.len() - 1 {
        pos + 1
    } else {
        pos
    }
}

/// The operator a token denotes.  Lexed operator tokens carry exactly `+`,
/// `-`, `*` or `/`; any other text falls back to the additive or
/// multiplicative default of its kind.
pub open spec fn binop_of(t: TokenV) -> BinOp {
    match t {
        TokenV::Term(s) => if s.len() >= 1 && s[0] == '-' {
            BinOp::Sub
        } else {
            BinOp::Add
        },
        TokenV::Factor(s) => if s.len() >= 1 && s[0] == '/' {
            BinOp::Div
        } else {
            BinOp::Mul
        },
        _ => BinOp::Add,
    }
}

/// Is `t` the one-character token `(`?
pub open spec fn is_open_paren(t: TokenV) -> bool {
    token_text(t).len() == 1 && token_text(t)[0] == '('
}

/// Is `t` the one-character token `)`?
pub open spec fn is_close_paren(t: TokenV) -> bool {
    token_text(t).len() == 1 && token_text(t)[0] == ')'
}

/// What a die part (count or sides) parses to: it must be non-empty, all
/// digits, and fit in an `i64`.
pub open spec fn part_val(p: Seq<char>) -> Option<int> {
    if p.len() >= 1 && all_digits(p) && dec_val(p) <= i64::MAX {
        Some(dec_val(p))
    } else {
        None
    }
}

/// The node and errors a die token's text produces.  The text splits at its
/// first `d`; everything after it must be digits (possibly none).  An empty
/// count means 1.  A part that fails to parse contributes an error and the
/// value 0.
pub open spec fn spec_die_node(text: Seq<char>) -> (AstExpr, Seq<Seq<char>>) {
    let k = first_d(text);
    if k < 0 || !all_digits(text.skip(k + 1)) {
        (AstExpr::Const(0), seq![die_msg_bad(text)])
    } else {
        let cpart = if k == 0 {
            Some(1int)
        } else {
            part_val(text.take(k))
        };
        let spart = part_val(text.skip(k + 1));
        let cnt: int = if cpart is Some {
            cpart->0
        } else {
            0
        };
        let sds: int = if spart is Some {
            spart->0
        } else {
            0
        };
        let errs = (if cpart is None {
            seq![die_msg_num(text)]
        } else {
            Seq::<Seq<char>>::empty()
        }) + (if spart is None {
            seq![die_msg_num(text)]
        } else {
            Seq::<Seq<char>>::empty()
        });
        (AstExpr::Die { count: cnt as i64, sides: sds as i64 }, errs)
    }
}

/// `Expr := Term`.
pub open spec fn spec_expr(toks: Seq<TokenV>, pos: int) -> PStep
    decreases toks.len() - pos, 5int,
{
    spec_term(toks, pos)
}

/// `Term := Factor (('+' | '-') Factor)*`, folded left.
pub open spec fn spec_term(toks: Seq<TokenV>, pos: int) -> PStep
    decreases toks.len() - pos, 4int,
{
    if !(0 <= pos < toks.len()) {
        PStep { node: AstExpr::Const(0), pos, errs: Seq::empty() }
    } else {
        let f = spec_factor(toks, pos);
        if pos <= f.pos < toks.len() {
            let rest = spec_term_rest(toks, f.pos, f.node);
            PStep { node: rest.node, pos: rest.pos, errs: f.errs + rest.errs }
        } else {
            f
        }
    }
}

/// The left fold of `Term`'s operator-operand repetitions onto `left`.
/// An operator standing as the final token is consumed in place; its
/// missing right operand parses as an error and folding then stops.
pub open spec fn spec_term_rest(toks: Seq<TokenV>, pos: int, left: AstExpr) -> PStep
    decreases toks.len() - pos, 3int,
{
    if !(0 <= pos < toks.len()) {
        PStep { node: left, pos, errs: Seq::empty() }
    } else if kind_of(toks[pos]) == TokenKind::Term {
        let op = binop_of(toks[pos]);
        if pos < toks.len() - 1 {
            let f = spec_factor(toks, pos + 1);
            let node = AstExpr::Op { op, left: Box::new(left), right: Box::new(f.node) };
            if pos < f.pos < toks.len() {
                let rest = spec_term_rest(toks, f.pos, node);
                PStep { node: rest.node, pos: rest.pos, errs: f.errs + rest.errs }
            } else {
                PStep { node, pos: f.pos, errs: f.errs }
            }
        } else {
            let f = spec_factor(toks, pos);
            let node = AstExpr::Op { op, left: Box::new(left), right: Box::new(f.node) };
            PStep { node, pos: f.pos, errs: f.errs }
        }
    } else {
        PStep { node: left, pos, errs: Seq::empty() }
    }
}

/// `Factor := Primary (('*' | '/') Primary)*`, folded left.
pub open spec fn spec_factor(toks: Seq<TokenV>, pos: int) -> PStep
    decreases toks.len() - pos, 2int,
{
    if !(0 <= pos < toks.len()) {
        PStep { node: AstExpr::Const(0), pos, errs: Seq::empty() }
    } else {
        let p = spec_primary(toks, pos);
        if pos <= p.pos < toks.len() {
            let rest = spec_factor_rest(toks, p.pos, p.node);
            PStep { node: rest.node, pos: rest.pos, errs: p.errs + rest.errs }
        } else {
            p
        }
    }
}

/// The left fold of `Factor`'s operator-operand repetitions onto `left`,
/// with the same end-of-stream treatment as `spec_term_rest`.
pub open spec fn spec_factor_rest(toks: Seq<TokenV>, pos: int, left: AstExpr) -> PStep
    decreases toks.len() - pos, 1int,
{
    if !(0 <= pos < toks.len()) {
        PStep { node: left, pos, errs: Seq::empty() }
    } else if kind_of(toks[pos]) == TokenKind::Factor {
        let op = binop_of(toks[pos]);
        if pos < toks.len() - 1 {
            let p = spec_primary(toks, pos + 1);
            let node = AstExpr::Op { op, left: Box::new(left), right: Box::new(p.node) };
            if pos < p.pos < toks.len() {
                let rest = spec_factor_rest(toks, p.pos, node);
                PStep { node: rest.node, pos: rest.pos, errs: p.errs + rest.errs }
            } else {
                PStep { node, pos: p.pos, errs: p.errs }
            }
        } else {
            let p = spec_primary(toks, pos);
            let node = AstExpr::Op { op, left: Box::new(left), right: Box::new(p.node) };
            PStep { node, pos: p.pos, errs: p.errs }
        }
    } else {
        PStep { node: left, pos, errs: Seq::empty() }
    }
}

/// `Primary := '(' Expr ')' | Die | Constant`, dispatched on the peeked
/// token's kind.  Whatever matches nothing records an error and stands in
/// as the literal `0`.
pub open spec fn spec_primary(toks: Seq<TokenV>, pos: int) -> PStep
    decreases toks.len() - pos, 0int,
{
    if !(0 <= pos < toks.len()) {
        PStep { node: AstExpr::Const(0), pos, errs: Seq::empty() }
    } else {
        let t = toks[pos];
        let npos = consume_pos(toks, pos);
        if kind_of(t) == TokenKind::Const {
            let s = token_text(t);
            if all_digits(s) {
                PStep {
                    node: AstExpr::Const(sat64(dec_val(s)) as i64),
                    pos: npos,
                    errs: Seq::empty(),
                }
            } else {
                PStep { node: AstExpr::Const(0), pos: npos, errs: seq![cnp_msg()] }
            }
        } else if kind_of(t) == TokenKind::Die {
            let dn = spec_die_node(token_text(t));
            PStep { node: dn.0, pos: npos, errs: dn.1 }
        } else if kind_of(t) == TokenKind::Group && is_open_paren(t) {
            if pos == toks.len() - 1 {
                PStep { node: AstExpr::Const(0), pos: npos, errs: seq![paren_msg()] }
            } else {
                let e = spec_expr(toks, pos + 1);
                if 0 <= e.pos < toks.len() && kind_of(toks[e.pos]) == TokenKind::Group
                    && is_close_paren(toks[e.pos]) {
                    PStep { node: e.node, pos: consume_pos(toks, e.pos), errs: e.errs }
                } else {
                    PStep { node: AstExpr::Const(0), pos: e.pos, errs: e.errs.push(paren_msg()) }
                }
            }
        } else {
            PStep { node: AstExpr::Const(0), pos, errs: seq![cnp_msg()] }
        }
    }
}

/// The cursor never moves backwards nor past the final token.
pub proof fn lemma_expr_pos(toks: Seq<TokenV>, pos: int)
    requires
        0 <= pos < toks.len(),
    ensures
        pos <= spec_expr(toks, pos).pos < toks.len(),
    decreases toks.len() - pos, 5int,
{
    lemma_term_pos(toks, pos);
}

pub proof fn lemma_term_pos(toks: Seq<TokenV>, pos: int)
    requires
        0 <= pos < toks.len(),
    ensures
        pos <= spec_term(toks, pos).pos < toks.len(),
    decreases toks.len() - pos, 4int,
{
    lemma_factor_pos(toks, pos);
    let f = spec_factor(toks, pos);
    lemma_term_rest_pos(toks, f.pos, f.node);
}

pub proof fn lemma_term_rest_pos(toks: Seq<TokenV>, pos: int, left: AstExpr)
    requires
        0 <= pos < toks.len(),
    ensures
        pos <= spec_term_rest(toks, pos, left).pos < toks.len(),
    decreases toks.len() - pos, 3int,
{
    if kind_of(toks[pos]) == TokenKind::Term {
        let op = binop_of(toks[pos]);
        if pos < toks.len() - 1 {
            lemma_factor_pos(toks, pos + 1);
            let f = spec_factor(toks, pos + 1);
            let node = AstExpr::Op { op, left: Box::new(left), right: Box::new(f.node) };
            if pos < f.pos < toks.len() {
                lemma_term_rest_pos(toks, f.pos, node);
            }
        } else {
            lemma_factor_pos(toks, pos);
        }
    }
}

pub proof fn lemma_factor_pos(toks: Seq<TokenV>, pos: int)
    requires
        0 <= pos < toks.len(),
    ensures
        pos <= spec_factor(toks, pos).pos < toks.len(),
    decreases toks.len() - pos, 2int,
{
    lemma_primary_pos(toks, pos);
    let p = spec_primary(toks, pos);
    lemma_factor_rest_pos(toks, p.pos, p.node);
}

pub proof fn lemma_factor_rest_pos(toks: Seq<TokenV>, pos: int, left: AstExpr)
    requires
        0 <= pos < toks.len(),
    ensures
        pos <= spec_factor_rest(toks, pos, left).pos < toks.len(),
    decreases toks.len() - pos, 1int,
{
    if kind_of(toks[pos]) == TokenKind::Factor {
        let op = binop_of(toks[pos]);
        if pos < toks.len() - 1 {
            lemma_primary_pos(toks, pos + 1);
            let p = spec_primary(toks, pos + 1);
            let node = AstExpr::Op { op, left: Box::new(left), right: Box::new(p.node) };
            if pos < p.pos < toks.len() {
                lemma_factor_rest_pos(toks, p.pos, node);
            }
        } else {
            lemma_primary_pos(toks, pos);
        }
    }
}

pub proof fn lemma_primary_pos(toks: Seq<TokenV>, pos: int)
    requires
        0 <= pos < toks.len(),
    ensures
        pos <= spec_primary(toks, pos).pos < toks.len(),
    decreases toks.len() - pos, 0int,
{
    let t = toks[pos];
    if kind_of(t) == TokenKind::Group && is_open_paren(t) && pos < toks.len() - 1 {
        lemma_expr_pos(toks, pos + 1);
    }
}

/// The operator a token denotes, executable form.
fn binop_of_token(t: &Token) -> (op: BinOp)
    ensures
        op == binop_of(t@),
{
    match t {
        Token::Term(s) => {
            if s.as_str().unicode_len() >= 1 && s.as_str().get_char(0) == '-' {
                BinOp::Sub
            } else {
                BinOp::Add
            }
        },
        Token::Factor(s) => {
            if s.as_str().unicode_len() >= 1 && s.as_str().get_char(0) == '/' {
                BinOp::Div
            } else {
                BinOp::Mul
            }
        },
        _ => BinOp::Add,
    }
}

/// Does the token carry exactly the one character `c`?
fn token_is_char(t: &Token, c: char) -> (r: bool)
    ensures
        r == (token_text(t@).len() == 1 && token_text(t@)[0] == c),
{
    let s = t.value().as_str();
    s.unicode_len() == 1 && s.get_char(0) == c
}

/// The recursive-descent parser: the token sequence, a cursor into it, and
/// the error messages recorded so far.
pub struct DiceParser {
    tokens: Vec<Token>,
    current: usize,
    errors: Vec<String>,
}

impl DiceParser {
    /// The parser is well-formed: at least one token, cursor in bounds.
    pub closed spec fn wf(&self) -> bool {
        1 <= self.tokens@.len() && (self.current as int) < self.tokens@.len()
    }

    /// The token sequence, as mathematical values.
    pub closed spec fn toks(&self) -> Seq<TokenV> {
        toks_view(self.tokens@)
    }

    /// The recorded error messages, as character sequences.
    pub closed spec fn errs(&self) -> Seq<Seq<char>> {
        self.errors@.map_values(|s: String| s@)
    }

    /// The cursor's position.
    pub closed spec fn pos(&self) -> int {
        self.current as int
    }

    /// Lex `raw` and construct a parser over the resulting tokens.  Fails
    /// on an unlexable chunk (with the lexer's message) and on an input
    /// holding no token at all.
    pub fn new(raw: &str) -> (r: Result<DiceParser, String>)
        ensures
            (r is Ok) <==> (spec_tokenize(raw@) is Toks && spec_tokenize(raw@)->Toks_0.len() >= 1),
            r is Ok ==> ({
                let p = r->Ok_0;
                &&& p.wf()
                &&& p.toks() == spec_tokenize(raw@)->Toks_0
                &&& p.pos() == 0
                &&& p.errs() == Seq::<Seq<char>>::empty()
            }),
            r is Err ==> (spec_tokenize(raw@) is Fail && r->Err_0@ == lex_fail_text(
                spec_tokenize(raw@)->Fail_0,
                spec_tokenize(raw@)->Fail_1,
            )) || (spec_tokenize(raw@) is Toks && spec_tokenize(raw@)->Toks_0.len() == 0
                && r->Err_0@ == "Expression is empty"@),
    {
        match tokenize_expr(raw) {
            Err(m) => Err(m),
            Ok(tokens) => {
                if tokens.len() == 0 {
                    Err(String::from_str("Expression is empty"))
                } else {
                    Ok(DiceParser::from_tokens(tokens))
                }
            },
        }
    }

    /// Wrap an already-lexed token sequence.
    fn from_tokens(tokens: Vec<Token>) -> (p: DiceParser)
        requires
            tokens@.len() >= 1,
        ensures
            p.wf(),
            p.tokens@ == tokens@,
            p.current == 0,
            p.errs() == Seq::<Seq<char>>::empty(),
    {
        let p = DiceParser { tokens, current: 0, errors: Vec::new() };
        proof {
            assert(p.errs() =~= Seq::<Seq<char>>::empty());
        }
        p
    }

    /// The errors recorded so far, in the order they occurred.
    pub fn errors(&self) -> (r: &Vec<String>)
        ensures
            r@.map_values(|s: String| s@) == self.errs(),
    {
        &self.errors
    }

    /// Record an error message.
    fn record_error(&mut self, m: String)
        ensures
            final(self).tokens@ == old(self).tokens@,
            final(self).current == old(self).current,
            final(self).errs() == old(self).errs().push(m@),
    {
        let ghost before = self.errors@;
        self.errors.push(m);
        proof {
            assert(self.errs() =~= before.map_values(|s: String| s@).push(m@));
        }
    }

    /// Is the cursor on the final token?
    fn is_at_end(&self) -> (r: bool)
        requires
            self.wf(),
        ensures
            r == (self.current as int == self.toks().len() - 1),
    {
        self.current == self.tokens.len() - 1
    }

    /// Does the current token have the given kind?  Does not consume.
    fn check(&self, kind: TokenKind) -> (r: bool)
        requires
            self.wf(),
        ensures
            r == (kind_of(self.toks()[self.current as int]) == kind),
    {
        self.tokens[self.current].kind() == kind
    }

    /// The current token, without advancing.
    fn peek(&self) -> (t: Token)
        requires
            self.wf(),
        ensures
            t@ == self.toks()[self.current as int],
    {
        self.tokens[self.current].duplicate()
    }

    /// Return the current token and advance — except on the final token,
    /// which is returned again and again without advancing.
    fn consume(&mut self) -> (t: Token)
        requires
            old(self).wf(),
        ensures
            final(self).wf(),
            final(self).tokens@ == old(self).tokens@,
            final(self).errors@ == old(self).errors@,
            t@ == old(self).toks()[old(self).current as int],
            final(self).current as int == consume_pos(old(self).toks(), old(self).current as int),
    {
        let t = self.tokens[self.current].duplicate();
        if self.current < self.tokens.len() - 1 {
            self.current = self.current + 1;
        }
        t
    }

    /// `Expr := Term`: parse a whole expression from the cursor on.
    pub fn expr(&mut self) -> (node: AstExpr)
        requires
            old(self).wf(),
        ensures
            final(self).wf(),
            final(self).toks() == old(self).toks(),
            ({
                let st = spec_expr(old(self).toks(), old(self).pos());
                &&& node == st.node
                &&& final(self).pos() == st.pos
                &&& final(self).errs() == old(self).errs() + st.errs
            }),
        decreases self.toks().len() - self.pos(), 5int,
    {
        self.term()
    }

    /// `Term := Factor (('+' | '-') Factor)*`, building a left-leaning tree.
    pub fn term(&mut self) -> (node: AstExpr)
        requires
            old(self).wf(),
        ensures
            final(self).wf(),
            final(self).toks() == old(self).toks(),
            ({
                let st = spec_term(old(self).toks(), old(self).pos());
                &&& node == st.node
                &&& final(self).pos() == st.pos
                &&& final(self).errs() == old(self).errs() + st.errs
            }),
        decreases self.toks().len() - self.pos(), 4int,
    {
        let ghost toks = self.toks();
        let ghost pos0 = self.current as int;
        let ghost errs0 = self.errs();
        let ghost target = spec_term(toks, pos0);

        let mut node = self.factor();
        proof {
            lemma_factor_pos(toks, pos0);
            let f = spec_factor(toks, pos0);
            let rest = spec_term_rest(toks, f.pos, f.node);
            assert(target.node == rest.node && target.pos == rest.pos && target.errs == f.errs
                + rest.errs);
            assert((errs0 + f.errs) + rest.errs =~= errs0 + (f.errs + rest.errs));
        }
        while self.check(TokenKind::Term) && !self.is_at_end()
            invariant
                self.wf(),
                self.tokens@.len() == toks.len(),
                toks == self.toks(),
                errs0 == old(self).errs(),
                target == spec_term(toks, pos0),
                pos0 == old(self).current as int,
                toks.len() == old(self).tokens@.len(),
                pos0 <= self.current as int,
                spec_term_rest(toks, self.current as int, node).node == target.node,
                spec_term_rest(toks, self.current as int, node).pos == target.pos,
                self.errs() + spec_term_rest(toks, self.current as int, node).errs == errs0
                    + target.errs,
            decreases self.tokens@.len() - self.current,
        {
            let ghost cur = self.current as int;
            let ghost node0 = node;
            let ghost e_pre = self.errs();
            let op_tok = self.consume();
            let right = self.factor();
            proof {
                lemma_factor_pos(toks, cur + 1);
            }
            let op = binop_of_token(&op_tok);
            let prev = node;
            node = AstExpr::Op { op, left: Box::new(prev), right: Box::new(right) };
            proof {
                let f = spec_factor(toks, cur + 1);
                let built = AstExpr::Op {
                    op: binop_of(toks[cur]),
                    left: Box::new(node0),
                    right: Box::new(f.node),
                };
                assert(node == built);
                let rest = spec_term_rest(toks, f.pos, built);
                assert(spec_term_rest(toks, cur, node0).node == rest.node);
                assert(spec_term_rest(toks, cur, node0).pos == rest.pos);
                assert(spec_term_rest(toks, cur, node0).errs == f.errs + rest.errs);
                assert((e_pre + f.errs) + rest.errs =~= e_pre + (f.errs + rest.errs));
            }
        }
        if self.check(TokenKind::Term) {
            // the operator is the final token: consume it in place; the
            // missing right operand parses as an error and folding stops
            let ghost cur = self.current as int;
            let ghost node0 = node;
            let ghost e_pre = self.errs();
            let op_tok = self.consume();
            let right = self.factor();
            let op = binop_of_token(&op_tok);
            let prev = node;
            node = AstExpr::Op { op, left: Box::new(prev), right: Box::new(right) };
            proof {
                let f = spec_factor(toks, cur);
                let built = AstExpr::Op {
                    op: binop_of(toks[cur]),
                    left: Box::new(node0),
                    right: Box::new(f.node),
                };
                assert(node == built);
                assert(spec_term_rest(toks, cur, node0).node == built);
                assert(spec_term_rest(toks, cur, node0).pos == f.pos);
                assert(spec_term_rest(toks, cur, node0).errs == f.errs);
                assert(self.errs() =~= e_pre + f.errs);
            }
        } else {
            proof {
                let cur = self.current as int;
                assert(spec_term_rest(toks, cur, node).errs == Seq::<Seq<char>>::empty());
                assert(self.errs() + Seq::<Seq<char>>::empty() =~= self.errs());
            }
        }
        node
    }

    /// `Factor := Primary (('*' | '/') Primary)*`, building a left-leaning
    /// tree.
    fn factor(&mut self) -> (node: AstExpr)
        requires
            old(self).wf(),
        ensures
            final(self).wf(),
            final(self).toks() == old(self).toks(),
            ({
                let st = spec_factor(old(self).toks(), old(self).current as int);
                &&& node == st.node
                &&& final(self).current as int == st.pos
                &&& final(self).errs() == old(self).errs() + st.errs
            }),
        decreases self.tokens@.len() - self.current, 2int,
    {
        let ghost toks = self.toks();
        let ghost pos0 = self.current as int;
        let ghost errs0 = self.errs();
        let ghost target = spec_factor(toks, pos0);

        let mut node = self.primary();
        proof {
            lemma_primary_pos(toks, pos0);
            let p = spec_primary(toks, pos0);
            let rest = spec_factor_rest(toks, p.pos, p.node);
            assert(target.node == rest.node && target.pos == rest.pos && target.errs == p.errs
                + rest.errs);
            assert((errs0 + p.errs) + rest.errs =~= errs0 + (p.errs + rest.errs));
        }
        while self.check(TokenKind::Factor) && !self.is_at_end()
            invariant
                self.wf(),
                self.tokens@.len() == toks.len(),
                toks == self.toks(),
                errs0 == old(self).errs(),
                target == spec_factor(toks, pos0),
                pos0 == old(self).current as int,
                toks.len() == old(self).tokens@.len(),
                pos0 <= self.current as int,
                spec_factor_rest(toks, self.current as int, node).node == target.node,
                spec_factor_rest(toks, self.current as int, node).pos == target.pos,
                self.errs() + spec_factor_rest(toks, self.current as int, node).errs == errs0
                    + target.errs,
            decreases self.tokens@.len() - self.current,
        {
            let ghost cur = self.current as int;
            let ghost node0 = node;
            let ghost e_pre = self.errs();
            let op_tok = self.consume();
            let right = self.primary();
            proof {
                lemma_primary_pos(toks, cur + 1);
            }
            let op = binop_of_token(&op_tok);
            let prev = node;
            node = AstExpr::Op { op, left: Box::new(prev), right: Box::new(right) };
            proof {
                let p = spec_primary(toks, cur + 1);
                let built = AstExpr::Op {
                    op: binop_of(toks[cur]),
                    left: Box::new(node0),
                    right: Box::new(p.node),
                };
                assert(node == built);
                let rest = spec_factor_rest(toks, p.pos, built);
                assert(spec_factor_rest(toks, cur, node0).node == rest.node);
                assert(spec_factor_rest(toks, cur, node0).pos == rest.pos);
                assert(spec_factor_rest(toks, cur, node0).errs == p.errs + rest.errs);
                assert((e_pre + p.errs) + rest.errs =~= e_pre + (p.errs + rest.errs));
            }
        }
        if self.check(TokenKind::Factor) {
            // the operator is the final token, as in `term`
            let ghost cur = self.current as int;
            let ghost node0 = node;
            let ghost e_pre = self.errs();
            let op_tok = self.consume();
            let right = self.primary();
            let op = binop_of_token(&op_tok);
            let prev = node;
            node = AstExpr::Op { op, left: Box::new(prev), right: Box::new(right) };
            proof {
                let p = spec_primary(toks, cur);
                let built = AstExpr::Op {
                    op: binop_of(toks[cur]),
                    left: Box::new(node0),
                    right: Box::new(p.node),
                };
                assert(node == built);
                assert(spec_factor_rest(toks, cur, node0).node == built);
                assert(spec_factor_rest(toks, cur, node0).pos == p.pos);
                assert(spec_factor_rest(toks, cur, node0).errs == p.errs);
                assert(self.errs() =~= e_pre + p.errs);
            }
        } else {
            proof {
                let cur = self.current as int;
                assert(spec_factor_rest(toks, cur, node).errs == Seq::<Seq<char>>::empty());
                assert(self.errs() + Seq::<Seq<char>>::empty() =~= self.errs());
            }
        }
        node
    }

    /// `Primary := '(' Expr ')' | Die | Constant`.
    fn primary(&mut self) -> (node: AstExpr)
        requires
            old(self).wf(),
        ensures
            final(self).wf(),
            final(self).toks() == old(self).toks(),
            ({
                let st = spec_primary(old(self).toks(), old(self).current as int);
                &&& node == st.node
                &&& final(self).current as int == st.pos
                &&& final(self).errs() == old(self).errs() + st.errs
            }),
        decreases self.tokens@.len() - self.current, 0int,
    {
        let ghost toks = self.toks();
        let ghost pos0 = self.current as int;
        let ghost errs0 = self.errs();

        if self.check(TokenKind::Const) {
            let t = self.consume();
            let chars = string_chars(t.value().as_str());
            proof {
                assert(chars@ == token_text(toks[pos0]));
            }
            let n = chars.len();
            if range_digits(&chars, 0, n) {
                proof {
                    assert(chars@.subrange(0, n as int) == chars@);
                }
                let v = parse_digits_saturating(&chars);
                proof {
                    assert(errs0 + Seq::<Seq<char>>::empty() =~= errs0);
                }
                AstExpr::Const(v)
            } else {
                proof {
                    assert(chars@.subrange(0, n as int) == chars@);
                }
                self.record_error(String::from_str("Could not parse input"));
                proof {
                    assert(errs0.push(cnp_msg()) =~= errs0 + seq![cnp_msg()]);
                }
                AstExpr::Const(0)
            }
        } else if self.check(TokenKind::Die) {
            let t = self.consume();
            self.die_node(&t)
        } else if self.check(TokenKind::Group) && token_is_char(&self.peek(), '(') {
            let at_end = self.is_at_end();
            let _ = self.consume();
            if at_end {
                // `(` as the final token: nothing can follow it, so the
                // group is unmatched and stands in as the literal 0
                self.record_error(String::from_str("Unmatched parenthesis"));
                proof {
                    assert(errs0.push(paren_msg()) =~= errs0 + seq![paren_msg()]);
                }
                AstExpr::Const(0)
            } else {
                let inner = self.expr();
                proof {
                    lemma_expr_pos(toks, pos0 + 1);
                }
                let ghost e = spec_expr(toks, pos0 + 1);
                if self.check(TokenKind::Group) && token_is_char(&self.peek(), ')') {
                    let _ = self.consume();
                    proof {
                        assert(self.errs() =~= errs0 + e.errs);
                    }
                    inner
                } else {
                    // unmatched: record it, and discard the inner tree in
                    // favour of the literal 0, as the grammar's recovery
                    self.record_error(String::from_str("Unmatched parenthesis"));
                    proof {
                        assert((errs0 + e.errs).push(paren_msg()) =~= errs0 + e.errs.push(
                            paren_msg(),
                        ));
                    }
                    AstExpr::Const(0)
                }
            }
        } else {
            self.record_error(String::from_str("Could not parse input"));
            proof {
                assert(errs0.push(cnp_msg()) =~= errs0 + seq![cnp_msg()]);
            }
            AstExpr::Const(0)
        }
    }

    /// Build the node for a die token: split its text at the first `d` and
    /// parse both parts, recording an error and substituting 0 for whatever
    /// fails.
    fn die_node(&mut self, t: &Token) -> (node: AstExpr)
        ensures
            final(self).tokens@ == old(self).tokens@,
            final(self).current == old(self).current,
            node == spec_die_node(token_text(t@)).0,
            final(self).errs() == old(self).errs() + spec_die_node(token_text(t@)).1,
    {
        let ghost s = token_text(t@);
        let ghost errs0 = self.errs();
        let chars = string_chars(t.value().as_str());
        proof {
            assert(chars@ == s);
            lemma_first_d_char(s);
        }
        let n = chars.len();
        match find_d(&chars) {
            None => {
                proof {
                    assert(first_d(s) < 0);
                }
                let m = die_msg_bad_string(t);
                self.record_error(m);
                proof {
                    assert(errs0.push(die_msg_bad(s)) =~= errs0 + seq![die_msg_bad(s)]);
                }
                AstExpr::Const(0)
            },
            Some(k) => {
                proof {
                    if first_d(s) < 0 {
                        assert(s[k as int] != 'd');
                    }
                    assert(0 <= first_d(s));
                    if first_d(s) < k {
                        assert(s[first_d(s)] != 'd');
                    }
                    if first_d(s) > k {
                        assert(s[k as int] != 'd');
                    }
                    assert(first_d(s) == k as int);
                }
                let rest_ok = range_digits(&chars, k + 1, n);
                proof {
                    assert(chars@.subrange(k as int + 1, n as int) == s.skip(k as int + 1));
                }
                if !rest_ok {
                    let m = die_msg_bad_string(t);
                    self.record_error(m);
                    proof {
                        assert(errs0.push(die_msg_bad(s)) =~= errs0 + seq![die_msg_bad(s)]);
                    }
                    AstExpr::Const(0)
                } else {
                    let ghost cpart = if k == 0 {
                        Some(1int)
                    } else {
                        part_val(s.take(k as int))
                    };
                    let count: i64;
                    if k == 0 {
                        count = 1;
                    } else {
                        if range_digits(&chars, 0, k) {
                            let part = subvec(&chars, 0, k);
                            proof {
                                assert(part@ == s.take(k as int));
                            }
                            match parse_digits_checked(&part) {
                                Some(v) => {
                                    count = v;
                                },
                                None => {
                                    let m = die_msg_num_string(t);
                                    self.record_error(m);
                                    count = 0;
                                },
                            }
                        } else {
                            proof {
                                assert(chars@.subrange(0, k as int) == s.take(k as int));
                            }
                            let m = die_msg_num_string(t);
                            self.record_error(m);
                            count = 0;
                        }
                    }
                    let part2 = subvec(&chars, k + 1, n);
                    proof {
                        assert(part2@ == s.skip(k as int + 1));
                    }
                    let ghost spart = part_val(s.skip(k as int + 1));
                    let sides: i64;
                    match parse_digits_checked(&part2) {
                        Some(v) => {
                            sides = v;
                        },
                        None => {
                            let m = die_msg_num_string(t);
                            self.record_error(m);
                            sides = 0;
                        },
                    }
                    proof {
                        let ghost cerr: Seq<Seq<char>> = if cpart is None {
                            seq![die_msg_num(s)]
                        } else {
                            Seq::<Seq<char>>::empty()
                        };
                        let ghost serr: Seq<Seq<char>> = if spart is None {
                            seq![die_msg_num(s)]
                        } else {
                            Seq::<Seq<char>>::empty()
                        };
                        assert(self.errs() =~= errs0 + (cerr + serr));
                    }
                    AstExpr::Die { count, sides }
                }
            },
        }
    }
}

/// The message for a die token whose text does not split as a die
/// expression.
fn die_msg_bad_string(t: &Token) -> (m: String)
    ensures
        m@ == die_msg_bad(token_text(t@)),
{
    let mut m = String::from_str("\"");
    m.append(t.value().as_str());
    m.append("\" was not recognized as a valid number or dice expression (Code: 3)");
    m
}

/// The message for a die part that should be numeric but fails to parse.
fn die_msg_num_string(t: &Token) -> (m: String)
    ensures
        m@ == die_msg_num(token_text(t@)),
{
    let mut m = String::from_str("\"");
    m.append(t.value().as_str());
    m.append("\" NUMBER in dice expression was not purely numeric");
    m
}

} // verus!
