//! Lexical analysis of dice-notation arithmetic expressions.
//!
//! The lexer turns a raw expression string into a flat sequence of tokens.
//! Whitespace is skipped; each of `+ - * / ( )` flushes the pending chunk and
//! becomes a one-character token of its own; every other character joins the
//! pending chunk, which must classify as a run of digits (a constant) or as a
//! die expression `<count>d<sides>` (an omitted count is rewritten to `1`).
use vstd::prelude::*;

use crate::text::{all_digits, chars_to_string, is_digit_char};

verus! {

/// A lexical token, carrying only its text.
#[derive(Debug)]
pub enum Token {
    Const(String),
    Die(String),
    Term(String),
    Factor(String),
    Group(String),
}

/// The mathematical form of a token: the same five kinds over character
/// sequences.
pub enum TokenV {
    Const(Seq<char>),
    Die(Seq<char>),
    Term(Seq<char>),
    Factor(Seq<char>),
    Group(Seq<char>),
}

impl View for Token {
    type V = TokenV;

    open spec fn view(&self) -> TokenV {
        match self {
            Token::Const(s) => TokenV::Const(s@),
            Token::Die(s) => TokenV::Die(s@),
            Token::Term(s) => TokenV::Term(s@),
            Token::Factor(s) => TokenV::Factor(s@),
            Token::Group(s) => TokenV::Group(s@),
        }
    }
}

/// A token's kind alone, for the parser's dispatch: it asks only "is the
/// current token some constant / some die / some operator", never what text
/// it carries.
#[derive(Clone, Copy, Debug, PartialEq, Eq, Structural)]
pub enum TokenKind {
    Const,
    Die,
    Term,
    Factor,
    Group,
}

/// The kind of a token.
pub open spec fn kind_of(t: TokenV) -> TokenKind {
    match t {
        TokenV::Const(_) => TokenKind::Const,
        TokenV::Die(_) => TokenKind::Die,
        TokenV::Term(_) => TokenKind::Term,
        TokenV::Factor(_) => TokenKind::Factor,
        TokenV::Group(_) => TokenKind::Group,
    }
}

/// The numeric tag of a token's kind, ignoring its text.
pub open spec fn kind_id(t: TokenV) -> int {
    match t {
        TokenV::Const(_) => 0,
        TokenV::Die(_) => 1,
        TokenV::Term(_) => 2,
        TokenV::Factor(_) => 3,
        TokenV::Group(_) => 4,
    }
}

/// The text a token carries.
pub open spec fn token_text(t: TokenV) -> Seq<char> {
    match t {
        TokenV::Const(s) => s,
        TokenV::Die(s) => s,
        TokenV::Term(s) => s,
        TokenV::Factor(s) => s,
        TokenV::Group(s) => s,
    }
}

/// The view of a token sequence.
pub open spec fn toks_view(ts: Seq<Token>) -> Seq<TokenV> {
    ts.map_values(|t: Token| t@)
}

impl Token {
    /// The kind tag, used to compare two tokens by variant regardless of
    /// their text.
    pub fn id(&self) -> (r: i64)
        ensures
            r == kind_id(self@),
    {
        match self {
            Token::Const(_) => 0,
            Token::Die(_) => 1,
            Token::Term(_) => 2,
            Token::Factor(_) => 3,
            Token::Group(_) => 4,
        }
    }

    /// The token's text.
    pub fn value(&self) -> (r: &String)
        ensures
            r@ == token_text(self@),
    {
        match self {
            Token::Const(s) => s,
            Token::Die(s) => s,
            Token::Term(s) => s,
            Token::Factor(s) => s,
            Token::Group(s) => s,
        }
    }

    /// The token's kind.
    pub fn kind(&self) -> (k: TokenKind)
        ensures
            k == kind_of(self@),
    {
        match self {
            Token::Const(_) => TokenKind::Const,
            Token::Die(_) => TokenKind::Die,
            Token::Term(_) => TokenKind::Term,
            Token::Factor(_) => TokenKind::Factor,
            Token::Group(_) => TokenKind::Group,
        }
    }

    /// An equal token (the tokens own their text, so handing one out copies
    /// it).
    pub fn duplicate(&self) -> (r: Token)
        ensures
            r@ == self@,
    {
        match self {
            Token::Const(s) => Token::Const(s.clone()),
            Token::Die(s) => Token::Die(s.clone()),
            Token::Term(s) => Token::Term(s.clone()),
            Token::Factor(s) => Token::Factor(s.clone()),
            Token::Group(s) => Token::Group(s.clone()),
        }
    }
}

/// The whitespace characters the lexer skips.
pub open spec fn is_ws(c: char) -> bool {
    c == ' ' || c == '\t' || c == '\n' || c == '\r' || c == '\u{85}' || c == '\u{a0}'
}

/// The six one-character delimiter tokens.
pub open spec fn is_delim(c: char) -> bool {
    c == '+' || c == '-' || c == '*' || c == '/' || c == '(' || c == ')'
}

/// The token a delimiter character becomes.
pub open spec fn delim_token(c: char) -> TokenV {
    if c == '(' || c == ')' {
        TokenV::Group(seq![c])
    } else if c == '*' || c == '/' {
        TokenV::Factor(seq![c])
    } else {
        TokenV::Term(seq![c])
    }
}

/// `s` splits at position `i` into `<digits> 'd' <digits>` with at least one
/// digit after the `d`.
pub open spec fn die_split_at(s: Seq<char>, i: int) -> bool {
    &&& 0 <= i < s.len()
    &&& s[i] == 'd'
    &&& all_digits(s.take(i))
    &&& i + 1 < s.len()
    &&& all_digits(s.skip(i + 1))
}

/// `s` is a die expression: optional digits, `d`, then one or more digits.
pub open spec fn is_die_text(s: Seq<char>) -> bool {
    exists|i: int| die_split_at(s, i)
}

/// A die text with an omitted count gets an explicit leading `1`.
pub open spec fn normalize_die(s: Seq<char>) -> Seq<char> {
    if s.len() > 0 && s[0] == 'd' {
        seq!['1'] + s
    } else {
        s
    }
}

/// How a buffered chunk classifies: a run of digits is a constant, a die
/// expression is a die (normalized), anything else is unlexable.
pub open spec fn classify_chunk(s: Seq<char>) -> Option<TokenV> {
    if all_digits(s) {
        Some(TokenV::Const(s))
    } else if is_die_text(s) {
        Some(TokenV::Die(normalize_die(s)))
    } else {
        None
    }
}

/// The outcome of lexing: the token sequence, or the unlexable chunk together
/// with the code the failure message carries (`1` mid-expression, `2` at the
/// end of the input).
pub enum LexOutcome {
    Toks(Seq<TokenV>),
    Fail(Seq<char>, int),
}

/// One pass of the lexer over the remaining input `s`, with pending chunk
/// `buf` and tokens `acc` already produced.
pub open spec fn spec_lex(s: Seq<char>, buf: Seq<char>, acc: Seq<TokenV>) -> LexOutcome
    decreases s.len(),
{
    if s.len() == 0 {
        if buf.len() == 0 {
            LexOutcome::Toks(acc)
        } else {
            match classify_chunk(buf) {
                Some(t) => LexOutcome::Toks(acc.push(t)),
                None => LexOutcome::Fail(buf, 2),
            }
        }
    } else {
        let c = s[0];
        if is_ws(c) {
            spec_lex(s.skip(1), buf, acc)
        } else if is_delim(c) {
            if buf.len() == 0 {
                spec_lex(s.skip(1), Seq::empty(), acc.push(delim_token(c)))
            } else {
                match classify_chunk(buf) {
                    Some(t) => spec_lex(s.skip(1), Seq::empty(), acc.push(t).push(delim_token(c))),
                    None => LexOutcome::Fail(buf, 1),
                }
            }
        } else {
            spec_lex(s.skip(1), buf.push(c), acc)
        }
    }
}

/// What lexing a whole input yields.
pub open spec fn spec_tokenize(s: Seq<char>) -> LexOutcome {
    spec_lex(s, Seq::empty(), Seq::empty())
}

/// The message reported for an unlexable chunk.
pub open spec fn lex_fail_text(buf: Seq<char>, code: int) -> Seq<char> {
    if code == 1 {
        buf + " was not recognized as a valid number or dice expression (Code: 1)"@
    } else {
        buf + " was not recognized as a valid number or dice expression (Code: 2)"@
    }
}

/// The position of the first `d` in `s`, or `-1` if there is none.
pub open spec fn first_d(s: Seq<char>) -> int
    decreases s.len(),
{
    if s.len() == 0 {
        -1
    } else if s[0] == 'd' {
        0
    } else {
        let r = first_d(s.skip(1));
        if r < 0 {
            -1
        } else {
            r + 1
        }
    }
}

/// `first_d` finds exactly the first `d`: either there is none, or it sits
/// at the returned position with no `d` before it.
pub proof fn lemma_first_d_char(s: Seq<char>)
    ensures
        first_d(s) == -1 || (0 <= first_d(s) < s.len() && s[first_d(s)] == 'd'),
        first_d(s) == -1 ==> forall|j: int| 0 <= j < s.len() ==> s[j] != 'd',
        first_d(s) >= 0 ==> forall|j: int| 0 <= j < first_d(s) ==> s[j] != 'd',
    decreases s.len(),
{
    if s.len() == 0 {
    } else if s[0] == 'd' {
    } else {
        lemma_first_d_char(s.skip(1));
        let r = first_d(s.skip(1));
        if r < 0 {
            assert forall|j: int| 0 <= j < s.len() implies s[j] != 'd' by {
                if j >= 1 {
                    assert(s.skip(1)[j - 1] == s[j]);
                    assert(s.skip(1)[j - 1] != 'd');
                }
            }
        } else {
            assert(first_d(s) == r + 1);
            assert(s.skip(1)[r] == s[r + 1]);
            assert forall|j: int| 0 <= j < first_d(s) implies s[j] != 'd' by {
                if j >= 1 {
                    assert(s.skip(1)[j - 1] == s[j]);
                    assert(s.skip(1)[j - 1] != 'd');
                }
            }
        }
    }
}

/// Every character of `v` in `[lo, hi)` is an ASCII digit.
pub fn range_digits(v: &Vec<char>, lo: usize, hi: usize) -> (r: bool)
    requires
        lo <= hi <= v@.len(),
    ensures
        r == all_digits(v@.subrange(lo as int, hi as int)),
{
    let mut i = lo;
    while i < hi
        invariant
            lo <= i <= hi <= v@.len(),
            forall|j: int| lo <= j < i ==> is_digit_char(v@[j]),
        decreases hi - i,
    {
        if !crate::text::is_digit(v[i]) {
            proof {
                assert(v@.subrange(lo as int, hi as int)[i - lo] == v@[i as int]);
            }
            return false;
        }
        i = i + 1;
    }
    proof {
        assert(forall|j: int|
            0 <= j < hi - lo ==> #[trigger] v@.subrange(lo as int, hi as int)[j] == v@[j + lo]);
    }
    true
}

/// The position of the first `d` in `v`, if any.
pub fn find_d(v: &Vec<char>) -> (r: Option<usize>)
    ensures
        match r {
            Some(k) => k < v@.len() && v@[k as int] == 'd' && forall|j: int|
                0 <= j < k ==> v@[j] != 'd',
            None => forall|j: int| 0 <= j < v@.len() ==> v@[j] != 'd',
        },
{
    let n = v.len();
    let mut i: usize = 0;
    while i < n
        invariant
            0 <= i <= n,
            n == v@.len(),
            forall|j: int| 0 <= j < i ==> v@[j] != 'd',
        decreases n - i,
    {
        if v[i] == 'd' {
            return Some(i);
        }
        i = i + 1;
    }
    None
}

/// Classify a buffered chunk, yielding its token or `None` if it is neither
/// a constant nor a die expression.
pub fn lex_token(buf: &Vec<char>) -> (r: Option<Token>)
    ensures
        (r is Some) <==> (classify_chunk(buf@) is Some),
        r is Some ==> r->0@ == classify_chunk(buf@)->0,
{
    let n = buf.len();
    if range_digits(buf, 0, n) {
        proof {
            assert(buf@.subrange(0, n as int) == buf@);
        }
        return Some(Token::Const(chars_to_string(buf)));
    }
    proof {
        assert(buf@.subrange(0, n as int) == buf@);
    }
    match find_d(buf) {
        None => {
            proof {
                assert(forall|i: int| !die_split_at(buf@, i));
            }
            None
        },
        Some(k) => {
            let front_ok = range_digits(buf, 0, k);
            let back_ok = k + 1 < n && range_digits(buf, k + 1, n);
            proof {
                assert(buf@.subrange(0, k as int) == buf@.take(k as int));
                if k + 1 < n {
                    assert(buf@.subrange(k as int + 1, n as int) == buf@.skip(k as int + 1));
                }
            }
            if front_ok && back_ok {
                proof {
                    assert(die_split_at(buf@, k as int));
                }
                let text = chars_to_string(buf);
                if k == 0 {
                    let norm = String::from_str("1").concat(text.as_str());
                    proof {
                        reveal_strlit("1");
                        assert(norm@ == normalize_die(buf@));
                    }
                    Some(Token::Die(norm))
                } else {
                    proof {
                        assert(!is_digit_char('d'));
                        assert(buf@[0] != 'd');
                    }
                    Some(Token::Die(text))
                }
            } else {
                proof {
                    assert(forall|i: int| !die_split_at(buf@, i)) by {
                        assert(forall|i: int|
                            0 <= i < buf@.len() && buf@[i] == 'd' ==> i >= k) by {
                            assert(forall|j: int| 0 <= j < k ==> buf@[j] != 'd');
                        }
                        assert(forall|i: int| #![auto]
                            k < i < buf@.len() && buf@[i] == 'd' ==> !all_digits(
                                buf@.take(i),
                            )) by {
                            assert(!is_digit_char('d'));
                            assert(forall|i: int|
                                k < i < buf@.len() ==> #[trigger] buf@.take(i)[k as int]
                                    == buf@[k as int]);
                        }
                    }
                }
                None
            }
        },
    }
}

/// A one-character string.
fn single_char_string(c: char) -> (s: String)
    ensures
        s@ == seq![c],
{
    let mut v: Vec<char> = Vec::new();
    v.push(c);
    chars_to_string(&v)
}

/// The whitespace test, executable form.
fn is_ws_char(c: char) -> (r: bool)
    ensures
        r == is_ws(c),
{
    c == ' ' || c == '\t' || c == '\n' || c == '\r' || c == '\u{85}' || c == '\u{a0}'
}

/// Lex a raw expression string into tokens, or report the first chunk that
/// classifies as neither a constant nor a die expression.
pub fn tokenize_expr(raw: &str) -> (r: Result<Vec<Token>, String>)
    ensures
        (r is Ok) <==> (spec_tokenize(raw@) is Toks),
        r is Ok ==> toks_view(r->Ok_0@) == spec_tokenize(raw@)->Toks_0,
        r is Err ==> r->Err_0@ == lex_fail_text(
            spec_tokenize(raw@)->Fail_0,
            spec_tokenize(raw@)->Fail_1,
        ),
{
    let n = raw.unicode_len();
    let mut tokens: Vec<Token> = Vec::new();
    let mut sb: Vec<char> = Vec::new();
    let mut i: usize = 0;
    proof {
        assert(raw@.skip(0) == raw@);
        assert(toks_view(tokens@) == Seq::<TokenV>::empty());
    }
    while i < n
        invariant
            0 <= i <= n,
            n == raw@.len(),
            spec_lex(raw@.skip(i as int), sb@, toks_view(tokens@)) == spec_tokenize(raw@),
        decreases n - i,
    {
        let ghost pre = raw@.skip(i as int);
        let ghost buf0 = sb@;
        let ghost acc0 = toks_view(tokens@);
        proof {
            assert(pre.skip(1) == raw@.skip(i as int + 1));
            assert(pre[0] == raw@[i as int]);
        }
        let c = raw.get_char(i);
        if is_ws_char(c) {
            // skipped entirely; it neither joins the chunk nor flushes it
            proof {
                assert(spec_lex(pre, buf0, acc0) == spec_lex(pre.skip(1), buf0, acc0));
            }
        } else if c == '+' || c == '-' || c == '*' || c == '/' || c == '(' || c == ')' {
            if sb.len() != 0 {
                match lex_token(&sb) {
                    None => {
                        proof {
                            assert(spec_lex(pre, buf0, acc0) == LexOutcome::Fail(buf0, 1));
                        }
                        let mut msg = chars_to_string(&sb);
                        msg.append(
                            " was not recognized as a valid number or dice expression (Code: 1)",
                        );
                        return Err(msg);
                    },
                    Some(tok) => {
                        proof {
                            assert(toks_view(tokens@.push(tok)) =~= toks_view(tokens@).push(tok@));
                        }
                        tokens.push(tok);
                    },
                }
                sb.clear();
            }
            let tok = match c {
                '(' | ')' => Token::Group(single_char_string(c)),
                '*' | '/' => Token::Factor(single_char_string(c)),
                _ => Token::Term(single_char_string(c)),
            };
            proof {
                assert(tok@ == delim_token(c));
                assert(toks_view(tokens@.push(tok)) =~= toks_view(tokens@).push(tok@));
            }
            tokens.push(tok);
            proof {
                if buf0.len() == 0 {
                    assert(toks_view(tokens@) == acc0.push(delim_token(c)));
                    assert(spec_lex(pre, buf0, acc0) == spec_lex(
                        pre.skip(1),
                        Seq::<char>::empty(),
                        acc0.push(delim_token(c)),
                    ));
                } else {
                    let t = classify_chunk(buf0)->0;
                    assert(toks_view(tokens@) == acc0.push(t).push(delim_token(c)));
                    assert(spec_lex(pre, buf0, acc0) == spec_lex(
                        pre.skip(1),
                        Seq::<char>::empty(),
                        acc0.push(t).push(delim_token(c)),
                    ));
                }
                assert(sb@ == Seq::<char>::empty());
                assert(spec_lex(raw@.skip(i as int + 1), sb@, toks_view(tokens@))
                    == spec_tokenize(raw@));
            }
        } else {
            sb.push(c);
            proof {
                assert(spec_lex(pre, buf0, acc0) == spec_lex(pre.skip(1), buf0.push(c), acc0));
            }
        }
        i = i + 1;
    }
    proof {
        assert(raw@.skip(n as int) == Seq::<char>::empty());
    }
    if sb.len() != 0 {
        match lex_token(&sb) {
            None => {
                let mut msg = chars_to_string(&sb);
                msg.append(" was not recognized as a valid number or dice expression (Code: 2)");
                return Err(msg);
            },
            Some(tok) => {
                proof {
                    assert(toks_view(tokens@.push(tok)) =~= toks_view(tokens@).push(tok@));
                }
                tokens.push(tok);
            },
        }
    }
    Ok(tokens)
}

} // verus!
