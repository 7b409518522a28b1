//! Laws of the expression engine, proved once and for all inputs.
use vstd::prelude::*;

use crate::arith::sat64;
use crate::ast::{rolled_wf, sat_sum, spec_trace, spec_value, AstExpr, BinOp, RolledExpr};
use crate::parser::spec_expr;
use crate::text::{all_digits, dec_u, dec_val, lemma_dec_u_val};
use crate::token::{
    classify_chunk, delim_token, die_split_at, first_d, is_delim, is_ws, lemma_first_d_char,
    spec_lex, spec_tokenize, LexOutcome, TokenV,
};

verus! {

/// A run of characters that are neither whitespace nor delimiters is
/// buffered whole by the lexer.
proof fn lemma_lex_chunk(chunk: Seq<char>, rest: Seq<char>, buf: Seq<char>, acc: Seq<TokenV>)
    requires
        forall|i: int| 0 <= i < chunk.len() ==> !is_ws(#[trigger] chunk[i]) && !is_delim(chunk[i]),
    ensures
        spec_lex(chunk + rest, buf, acc) == spec_lex(rest, buf + chunk, acc),
    decreases chunk.len(),
{
    if chunk.len() == 0 {
        assert(chunk + rest =~= rest);
        assert(buf + chunk =~= buf);
    } else {
        let c = chunk[0];
        assert((chunk + rest)[0] == c);
        assert(!is_ws(c) && !is_delim(c));
        assert((chunk + rest).skip(1) =~= chunk.skip(1) + rest);
        assert(forall|i: int|
            0 <= i < chunk.skip(1).len() ==> !is_ws(#[trigger] chunk.skip(1)[i]) && !is_delim(
                chunk.skip(1)[i],
            ));
        lemma_lex_chunk(chunk.skip(1), rest, buf.push(c), acc);
        assert(buf.push(c) + chunk.skip(1) =~= buf + chunk);
    }
}

/// Digit characters are neither whitespace nor delimiters.
proof fn lemma_digits_are_plain(digits: Seq<char>)
    requires
        all_digits(digits),
    ensures
        forall|i: int|
            0 <= i < digits.len() ==> !is_ws(#[trigger] digits[i]) && !is_delim(digits[i]),
{
}

/// Law: for all non-negative literals `a` and `b`, the text `a+b` lexes
/// into the three tokens `a`, `+`, `b`; parses without error into the
/// addition of the two literals; and every evaluation of that tree yields
/// the saturating sum `a + b` with the trace `a + b` (the two decimal
/// texts joined by a spaced plus sign).
pub proof fn lemma_literal_addition(a: i64, b: i64)
    requires
        0 <= a,
        0 <= b,
    ensures
        ({
            let s = dec_u(a as int) + "+"@ + dec_u(b as int);
            let lexed = spec_tokenize(s);
            &&& lexed is Toks
            &&& ({
                let st = spec_expr(lexed->Toks_0, 0);
                &&& st.errs.len() == 0
                &&& st.node == AstExpr::Op {
                    op: BinOp::Add,
                    left: Box::new(AstExpr::Const(a)),
                    right: Box::new(AstExpr::Const(b)),
                }
                &&& forall|re: RolledExpr|
                    rolled_wf(st.node, re) ==> spec_value(re) == sat64(a + b) && spec_trace(re)
                        == dec_u(a as int) + " + "@ + dec_u(b as int)
            })
        }),
{
    reveal_strlit("+");
    reveal_strlit(" + ");
    let aa = dec_u(a as int);
    let bb = dec_u(b as int);
    lemma_dec_u_val(a as int);
    lemma_dec_u_val(b as int);
    let s = aa + "+"@ + bb;

    // lexing: buffer the digits of a, flush at '+', buffer those of b,
    // flush at the end
    let plus_rest = "+"@ + bb;
    assert(s =~= aa + plus_rest);
    lemma_digits_are_plain(aa);
    lemma_lex_chunk(aa, plus_rest, Seq::empty(), Seq::empty());
    assert(Seq::<char>::empty() + aa =~= aa);
    assert(plus_rest[0] == '+');
    assert(is_delim('+'));
    assert(classify_chunk(aa) == Some(TokenV::Const(aa)));
    assert(delim_token('+') == TokenV::Term(seq!['+']));
    let acc2 = Seq::<TokenV>::empty().push(TokenV::Const(aa)).push(TokenV::Term(seq!['+']));
    assert(plus_rest.skip(1) =~= bb);
    assert(spec_lex(plus_rest, aa, Seq::empty()) == spec_lex(bb, Seq::empty(), acc2));
    lemma_digits_are_plain(bb);
    lemma_lex_chunk(bb, Seq::empty(), Seq::empty(), acc2);
    assert(bb + Seq::<char>::empty() =~= bb);
    assert(Seq::<char>::empty() + bb =~= bb);
    assert(spec_lex(Seq::empty(), bb, acc2) == LexOutcome::Toks(acc2.push(TokenV::Const(bb))));
    let toks = acc2.push(TokenV::Const(bb));
    assert(spec_tokenize(s) == LexOutcome::Toks(toks));
    assert(toks.len() == 3);
    assert(toks[0] == TokenV::Const(aa));
    assert(toks[1] == TokenV::Term(seq!['+']));
    assert(toks[2] == TokenV::Const(bb));

    // parsing: Const, then one Term fold onto a second Const
    let node_a = AstExpr::Const(a);
    let node_b = AstExpr::Const(b);
    let sum_node = AstExpr::Op {
        op: BinOp::Add,
        left: Box::new(node_a),
        right: Box::new(node_b),
    };
    assert(sat64(dec_val(aa)) == a as int);
    assert(sat64(dec_val(bb)) == b as int);
    assert(crate::parser::spec_primary(toks, 0).node == node_a);
    assert(crate::parser::spec_primary(toks, 0).pos == 1);
    assert(crate::parser::spec_primary(toks, 0).errs =~= Seq::<Seq<char>>::empty());
    assert(crate::parser::spec_factor_rest(toks, 1, node_a).node == node_a);
    assert(crate::parser::spec_factor_rest(toks, 1, node_a).pos == 1);
    assert(crate::parser::spec_factor_rest(toks, 1, node_a).errs =~= Seq::<Seq<char>>::empty());
    assert(crate::parser::spec_factor(toks, 0).node == node_a);
    assert(crate::parser::spec_factor(toks, 0).pos == 1);
    assert(crate::parser::spec_factor(toks, 0).errs =~= Seq::<Seq<char>>::empty());
    assert(crate::parser::spec_primary(toks, 2).node == node_b);
    assert(crate::parser::spec_primary(toks, 2).pos == 2);
    assert(crate::parser::spec_primary(toks, 2).errs =~= Seq::<Seq<char>>::empty());
    assert(crate::parser::spec_factor_rest(toks, 2, node_b).node == node_b);
    assert(crate::parser::spec_factor_rest(toks, 2, node_b).pos == 2);
    assert(crate::parser::spec_factor_rest(toks, 2, node_b).errs =~= Seq::<Seq<char>>::empty());
    assert(crate::parser::spec_factor(toks, 2).node == node_b);
    assert(crate::parser::spec_factor(toks, 2).pos == 2);
    assert(crate::parser::spec_factor(toks, 2).errs =~= Seq::<Seq<char>>::empty());
    assert(crate::parser::binop_of(toks[1]) == BinOp::Add);
    assert(crate::parser::spec_term_rest(toks, 2, sum_node).node == sum_node);
    assert(crate::parser::spec_term_rest(toks, 2, sum_node).pos == 2);
    assert(crate::parser::spec_term_rest(toks, 2, sum_node).errs =~= Seq::<Seq<char>>::empty());
    assert(crate::parser::spec_term_rest(toks, 1, node_a).node == sum_node);
    assert(crate::parser::spec_term_rest(toks, 1, node_a).pos == 2);
    assert(crate::parser::spec_term_rest(toks, 1, node_a).errs =~= Seq::<Seq<char>>::empty());
    let st = spec_expr(toks, 0);
    assert(st.node == sum_node && st.errs =~= Seq::<Seq<char>>::empty());

    // evaluation: the tree holds no die, so its one annotation is itself
    assert forall|re: RolledExpr| rolled_wf(sum_node, re) implies spec_value(re) == sat64(a + b)
        && spec_trace(re) == dec_u(a as int) + " + "@ + dec_u(b as int) by {
        match re {
            RolledExpr::Op { op, left, right } => {
                assert(op == BinOp::Add);
                assert(rolled_wf(node_a, *left));
                assert(rolled_wf(node_b, *right));
                match *left {
                    RolledExpr::Const(w) => {
                        assert(w == a);
                        assert(spec_value(*left) == a as int);
                        assert(spec_trace(*left) == dec_u(a as int));
                    },
                    _ => {
                        assert(false);
                    },
                }
                match *right {
                    RolledExpr::Const(w) => {
                        assert(w == b);
                        assert(spec_value(*right) == b as int);
                        assert(spec_trace(*right) == dec_u(b as int));
                    },
                    _ => {
                        assert(false);
                    },
                }
                assert(spec_value(re) == sat64(a + b));
                assert(spec_trace(*left) == dec_u(a as int));
                assert(spec_trace(*right) == dec_u(b as int));
                assert(crate::ast::op_text(BinOp::Add) == " + "@);
                assert(spec_trace(re) =~= dec_u(a as int) + " + "@ + dec_u(b as int));
            },
            _ => {
                assert(false);
            },
        }
    }
}


/// Law: for all counts `n >= 1` and sides `s >= 1`, the text `nds` (the
/// two decimal texts around a `d`) lexes into the single die token it
/// spells, parses without error into the die node rolling `n` dice of `s`
/// sides, and every evaluation of that node yields a value between `n` and
/// `n * s`.
pub proof fn lemma_die_expression(n: i64, s: i64)
    requires
        1 <= n,
        1 <= s,
    ensures
        ({
            let text = dec_u(n as int) + "d"@ + dec_u(s as int);
            let lexed = spec_tokenize(text);
            &&& lexed is Toks
            &&& lexed->Toks_0 == seq![TokenV::Die(text)]
            &&& ({
                let st = spec_expr(lexed->Toks_0, 0);
                &&& st.errs.len() == 0
                &&& st.node == AstExpr::Die { count: n, sides: s }
                &&& forall|re: RolledExpr|
                    rolled_wf(st.node, re) ==> n as int <= spec_value(re) && spec_value(re) <= (
                    n as int) * (s as int)
            })
        }),
{
    reveal_strlit("d");
    let nn = dec_u(n as int);
    let ss = dec_u(s as int);
    lemma_dec_u_val(n as int);
    lemma_dec_u_val(s as int);
    let text = nn + "d"@ + ss;
    let k = nn.len() as int;
    assert(text.len() == k + 1 + ss.len());
    assert(text[k] == 'd');
    assert(forall|j: int| 0 <= j < k ==> text[j] == nn[j]);
    assert(forall|j: int| k < j < text.len() ==> text[j] == ss[j - k - 1]);

    // lexing: the whole text is one chunk, and it classifies as a die
    assert(forall|i: int| 0 <= i < text.len() ==> !is_ws(#[trigger] text[i]) && !is_delim(text[i]));
    lemma_lex_chunk(text, Seq::empty(), Seq::empty(), Seq::empty());
    assert(text + Seq::<char>::empty() =~= text);
    assert(Seq::<char>::empty() + text =~= text);
    assert(!crate::text::is_digit_char('d'));
    assert(!all_digits(text));
    assert(text.take(k) =~= nn);
    assert(text.skip(k + 1) =~= ss);
    assert(die_split_at(text, k));
    assert(text[0] == nn[0] && text[0] != 'd');
    assert(crate::token::normalize_die(text) == text);
    assert(classify_chunk(text) == Some(TokenV::Die(text)));
    let toks = seq![TokenV::Die(text)];
    assert(Seq::<TokenV>::empty().push(TokenV::Die(text)) =~= toks);
    assert(spec_tokenize(text) == LexOutcome::Toks(toks));

    // the first `d` of the text is its separator
    lemma_first_d_char(text);
    if first_d(text) == -1 {
        assert(false);
    }
    if first_d(text) < k {
        assert(text[first_d(text)] != 'd');
        assert(false);
    }
    if first_d(text) > k {
        assert(text[k] != 'd');
        assert(false);
    }
    assert(first_d(text) == k);

    // parsing: the one die token becomes the die node, with no error
    let dn = crate::parser::spec_die_node(text);
    assert(crate::parser::part_val(nn) == Some(n as int));
    assert(crate::parser::part_val(ss) == Some(s as int));
    let die_node = AstExpr::Die { count: n, sides: s };
    assert(dn.0 == die_node);
    assert(dn.1 =~= Seq::<Seq<char>>::empty());
    assert(crate::parser::consume_pos(toks, 0) == 0);
    assert(crate::parser::spec_primary(toks, 0).node == die_node);
    assert(crate::parser::spec_primary(toks, 0).pos == 0);
    assert(crate::parser::spec_primary(toks, 0).errs =~= Seq::<Seq<char>>::empty());
    assert(crate::parser::spec_factor_rest(toks, 0, die_node).node == die_node);
    assert(crate::parser::spec_factor_rest(toks, 0, die_node).pos == 0);
    assert(crate::parser::spec_factor_rest(toks, 0, die_node).errs =~= Seq::<Seq<char>>::empty());
    assert(crate::parser::spec_factor(toks, 0).node == die_node);
    assert(crate::parser::spec_factor(toks, 0).pos == 0);
    assert(crate::parser::spec_factor(toks, 0).errs =~= Seq::<Seq<char>>::empty());
    assert(crate::parser::spec_term_rest(toks, 0, die_node).node == die_node);
    assert(crate::parser::spec_term_rest(toks, 0, die_node).pos == 0);
    assert(crate::parser::spec_term_rest(toks, 0, die_node).errs =~= Seq::<Seq<char>>::empty());
    let st = spec_expr(toks, 0);
    assert(st.node == die_node && st.errs =~= Seq::<Seq<char>>::empty());

    // evaluation: every in-range annotation sums within the bounds
    assert forall|re: RolledExpr| rolled_wf(die_node, re) implies n as int <= spec_value(re)
        && spec_value(re) <= (n as int) * (s as int) by {
        lemma_die_roll_bounds(n, s, re);
    }
}


/// Law: a die expression with an omitted count is the very token it would
/// be with an explicit count of 1.  For any digit text `s` with at least
/// one digit, `d{s}` and `1d{s}` lex to the identical single die token
/// `1d{s}` — so everything downstream (the parsed node, and with it the
/// range of values it can roll) coincides as well.
pub proof fn lemma_bare_die_normalization(ss: Seq<char>)
    requires
        all_digits(ss),
        ss.len() >= 1,
    ensures
        spec_tokenize(seq!['d'] + ss) == spec_tokenize(seq!['1', 'd'] + ss),
        spec_tokenize(seq!['1', 'd'] + ss) == LexOutcome::Toks(
            seq![TokenV::Die(seq!['1', 'd'] + ss)],
        ),
{
    let bare = seq!['d'] + ss;
    let full = seq!['1', 'd'] + ss;
    assert(!crate::text::is_digit_char('d'));

    assert(forall|i: int| 0 <= i < bare.len() ==> !is_ws(#[trigger] bare[i]) && !is_delim(bare[i]));
    lemma_lex_chunk(bare, Seq::empty(), Seq::empty(), Seq::empty());
    assert(bare + Seq::<char>::empty() =~= bare);
    assert(Seq::<char>::empty() + bare =~= bare);
    assert(!all_digits(bare));
    assert(bare.take(0) =~= Seq::<char>::empty());
    assert(bare.skip(1) =~= ss);
    assert(die_split_at(bare, 0));
    assert(crate::token::normalize_die(bare) =~= full);
    assert(classify_chunk(bare) == Some(TokenV::Die(full)));
    assert(Seq::<TokenV>::empty().push(TokenV::Die(full)) =~= seq![TokenV::Die(full)]);
    assert(spec_tokenize(bare) == LexOutcome::Toks(seq![TokenV::Die(full)]));

    assert(forall|i: int| 0 <= i < full.len() ==> !is_ws(#[trigger] full[i]) && !is_delim(full[i]));
    lemma_lex_chunk(full, Seq::empty(), Seq::empty(), Seq::empty());
    assert(full + Seq::<char>::empty() =~= full);
    assert(Seq::<char>::empty() + full =~= full);
    assert(full[1] == 'd');
    assert(!all_digits(full));
    assert(full.take(1) =~= seq!['1']);
    assert(all_digits(seq!['1']));
    assert(full.skip(2) =~= ss);
    assert(die_split_at(full, 1));
    assert(full[0] == '1' && full[0] != 'd');
    assert(crate::token::normalize_die(full) == full);
    assert(classify_chunk(full) == Some(TokenV::Die(full)));
    assert(spec_tokenize(full) == LexOutcome::Toks(seq![TokenV::Die(full)]));
}

/// The clamped sum of rolls that each lie in `[1, sides]` lies between the
/// number of rolls and that number times `sides`.
proof fn lemma_sat_sum_bounds(rolls: Seq<i64>, sides: int)
    requires
        sides >= 1,
        rolls.len() <= i64::MAX,
        forall|i: int| 0 <= i < rolls.len() ==> 1 <= #[trigger] rolls[i] && rolls[i] <= sides,
    ensures
        rolls.len() <= sat_sum(rolls),
        sat_sum(rolls) <= rolls.len() * sides,
    decreases rolls.len(),
{
    if rolls.len() == 0 {
    } else {
        let head = rolls.drop_last();
        let last = rolls.last();
        assert(forall|i: int| 0 <= i < head.len() ==> 1 <= #[trigger] head[i] && head[i] <= sides);
        lemma_sat_sum_bounds(head, sides);
        let n = rolls.len() as int;
        assert((n - 1) * sides + sides == n * sides) by (nonlinear_arith);
        assert(n * sides >= n) by (nonlinear_arith)
            requires
                sides >= 1,
                n >= 0,
        ;
        assert(sat_sum(head) <= i64::MAX);
        assert(sat_sum(rolls) == sat64(sat_sum(head) + last));
    }
}

/// Law: a die node that rolls `n >= 1` dice of `s >= 1` sides always
/// evaluates to a value between `n` and `n * s`: its annotation carries
/// exactly `n` outcomes, each between 1 and `s`, and the value is their
/// (saturating) sum.
pub proof fn lemma_die_roll_bounds(count: i64, sides: i64, re: RolledExpr)
    requires
        1 <= count,
        1 <= sides,
        rolled_wf(AstExpr::Die { count, sides }, re),
    ensures
        count as int <= spec_value(re),
        spec_value(re) <= (count as int) * (sides as int),
{
    match re {
        RolledExpr::Die { rolls, .. } => {
            assert(rolls@.len() == count as int);
            assert(forall|i: int|
                0 <= i < rolls@.len() ==> 1 <= #[trigger] rolls@[i] && rolls@[i] <= sides);
            lemma_sat_sum_bounds(rolls@, sides as int);
        },
        _ => {
            assert(false);
        },
    }
}

} // verus!
