//! Formula syntax: tokens, the expression tree and its parser, and the
//! dependency graph between cells.
use vstd::prelude::*;
use crate::text::{chars_of, string_of_range, is_ws, char_is_whitespace, is_alnum, char_is_alphanumeric,
    uppercase, to_uppercase};
use crate::sheet::cell::{CellAddr, CellError, CellRange, range_cells, rows_cells, row_cells, is_letter, is_digit, all_digits, letter_run, parse_addr};

verus! {

/// Binary operators of formulas.
#[derive(Debug, Clone, Copy, PartialEq, Eq, Structural)]
pub enum Op {
    Add,
    Sub,
    Mul,
    Div,
    Mod,
    Gt,
    Lt,
    Gte,
    Lte,
    Eq,
    Neq,
}

/// A formula expression. A number literal keeps its text (digits with at most
/// one `.`); evaluation reads its value.
#[derive(Debug)]
pub enum Expr {
    Number(String),
    CellRef(CellAddr),
    Range(CellAddr, CellAddr),
    BinaryOp { op: Op, left: Box<Expr>, right: Box<Expr> },
    FunctionCall { name: String, args: Vec<Expr> },
}

/// The mathematical content of an expression.
pub enum ExprView {
    Number(Seq<char>),
    CellRef(CellAddr),
    Range(CellAddr, CellAddr),
    BinaryOp { op: Op, left: Box<ExprView>, right: Box<ExprView> },
    FunctionCall { name: Seq<char>, args: Seq<ExprView> },
}

/// The view of an expression.
pub open spec fn expr_view(e: Expr) -> ExprView
    decreases e, 0int,
{
    match e {
        Expr::Number(s) => ExprView::Number(s@),
        Expr::CellRef(a) => ExprView::CellRef(a),
        Expr::Range(a, b) => ExprView::Range(a, b),
        Expr::BinaryOp { op, left, right } => ExprView::BinaryOp {
            op,
            left: Box::new(expr_view(*left)),
            right: Box::new(expr_view(*right)),
        },
        Expr::FunctionCall { name, args } => ExprView::FunctionCall { name: name@, args: args_view(args@, 0) },
    }
}

/// The views of the expressions of `s` from index `i` on.
pub open spec fn args_view(s: Seq<Expr>, i: int) -> Seq<ExprView>
    decreases s, s.len() - i,
{
    if i < 0 || i >= s.len() {
        seq![]
    } else {
        seq![expr_view(s[i])] + args_view(s, i + 1)
    }
}

// ── Tokens ──────────────────────────────────────────────────────────────────

/// A token of formula text.
#[derive(Debug)]
pub enum Token {
    Number(String),
    CellRef(CellAddr),
    Operator(Op),
    LeftParen,
    RightParen,
    Comma,
    Colon,
    Function(String),
    Eof,
}

/// The mathematical content of a token.
pub enum TokenView {
    Number(Seq<char>),
    CellRef(CellAddr),
    Operator(Op),
    LeftParen,
    RightParen,
    Comma,
    Colon,
    Function(Seq<char>),
    Eof,
}

/// The view of a token.
pub open spec fn token_view(t: Token) -> TokenView {
    match t {
        Token::Number(s) => TokenView::Number(s@),
        Token::CellRef(a) => TokenView::CellRef(a),
        Token::Operator(o) => TokenView::Operator(o),
        Token::LeftParen => TokenView::LeftParen,
        Token::RightParen => TokenView::RightParen,
        Token::Comma => TokenView::Comma,
        Token::Colon => TokenView::Colon,
        Token::Function(s) => TokenView::Function(s@),
        Token::Eof => TokenView::Eof,
    }
}

/// Where the whitespace of `s` that starts at `i` ends.
pub open spec fn skip_ws_from(s: Seq<char>, i: int) -> int
    decreases s.len() - i,
{
    if 0 <= i < s.len() && is_ws(s[i]) { skip_ws_from(s, i + 1) } else { i }
}

/// Where a number literal that starts at `i` ends: digits, and one `.` at most.
pub open spec fn number_end(s: Seq<char>, i: int, has_dot: bool) -> int
    decreases s.len() - i,
{
    if 0 <= i < s.len() && is_digit(s[i]) {
        number_end(s, i + 1, has_dot)
    } else if 0 <= i < s.len() && s[i] == '.' && !has_dot {
        number_end(s, i + 1, true)
    } else {
        i
    }
}

/// Where an identifier that starts at `i` ends: alphanumeric characters.
pub open spec fn ident_end(s: Seq<char>, i: int) -> int
    decreases s.len() - i,
{
    if 0 <= i < s.len() && is_alnum(s[i]) { ident_end(s, i + 1) } else { i }
}

/// An identifier shaped like a cell reference: ASCII letters, then one or
/// more ASCII digits, nothing else.
pub open spec fn cell_ref_shape(t: Seq<char>) -> bool {
    let n = letter_run(t);
    n > 0 && n < t.len() && all_digits(t.skip(n))
}

/// The single-character tokens.
pub open spec fn simple_token(c: char) -> Option<TokenView> {
    if c == '(' {
        Some(TokenView::LeftParen)
    } else if c == ')' {
        Some(TokenView::RightParen)
    } else if c == ',' {
        Some(TokenView::Comma)
    } else if c == ':' {
        Some(TokenView::Colon)
    } else if c == '+' {
        Some(TokenView::Operator(Op::Add))
    } else if c == '-' {
        Some(TokenView::Operator(Op::Sub))
    } else if c == '*' {
        Some(TokenView::Operator(Op::Mul))
    } else if c == '/' {
        Some(TokenView::Operator(Op::Div))
    } else if c == '%' {
        Some(TokenView::Operator(Op::Mod))
    } else if c == '=' {
        Some(TokenView::Operator(Op::Eq))
    } else {
        None
    }
}

/// The token of `s` at `i` and where the scan goes on. Whitespace is skipped;
/// unknown characters are skipped too. An identifier followed by `(` is a
/// function (upper-cased); one shaped like a cell reference is that cell; any
/// other identifier, or a cell that does not parse, ends the token stream.
pub open spec fn next_token(s: Seq<char>, i: int) -> (TokenView, int)
    decreases s.len() - i,
{
    let p = skip_ws_from(s, i);
    if p < 0 || p >= s.len() {
        (TokenView::Eof, p)
    } else {
        let c = s[p];
        match simple_token(c) {
            Some(t) => (t, p + 1),
            None => if c == '>' {
                if p + 1 < s.len() && s[p + 1] == '=' {
                    (TokenView::Operator(Op::Gte), p + 2)
                } else {
                    (TokenView::Operator(Op::Gt), p + 1)
                }
            } else if c == '<' {
                if p + 1 < s.len() && s[p + 1] == '=' {
                    (TokenView::Operator(Op::Lte), p + 2)
                } else if p + 1 < s.len() && s[p + 1] == '>' {
                    (TokenView::Operator(Op::Neq), p + 2)
                } else {
                    (TokenView::Operator(Op::Lt), p + 1)
                }
            } else if is_digit(c) {
                let e = number_end(s, p, false);
                (TokenView::Number(s.subrange(p, e)), e)
            } else if is_letter(c) {
                let e = ident_end(s, p);
                let id = s.subrange(p, e);
                let q = skip_ws_from(s, e);
                if q < s.len() && s[q] == '(' {
                    (TokenView::Function(uppercase(id)), q)
                } else if cell_ref_shape(id) {
                    match parse_addr(id) {
                        Some(a) => (TokenView::CellRef(a), q),
                        None => (TokenView::Eof, q),
                    }
                } else {
                    (TokenView::Eof, q)
                }
            } else {
                if p >= i { next_token(s, p + 1) } else { (TokenView::Eof, p) }
            },
        }
    }
}

pub proof fn lemma_skip_ws_from(s: Seq<char>, i: int)
    requires
        0 <= i <= s.len(),
    ensures
        i <= skip_ws_from(s, i) <= s.len(),
        forall|x: int| i <= x < skip_ws_from(s, i) ==> is_ws(#[trigger] s[x]),
        skip_ws_from(s, i) < s.len() ==> !is_ws(s[skip_ws_from(s, i)]),
    decreases s.len() - i,
{
    if i < s.len() && is_ws(s[i]) {
        lemma_skip_ws_from(s, i + 1);
    }
}

/// The text of an operator in formula syntax.
pub open spec fn op_symbol(o: Op) -> Seq<char> {
    match o {
        Op::Add => seq!['+'],
        Op::Sub => seq!['-'],
        Op::Mul => seq!['*'],
        Op::Div => seq!['/'],
        Op::Mod => seq!['%'],
        Op::Gt => seq!['>'],
        Op::Lt => seq!['<'],
        Op::Gte => seq!['>', '='],
        Op::Lte => seq!['<', '='],
        Op::Eq => seq!['='],
        Op::Neq => seq!['<', '>'],
    }
}

/// An operator token is the operator whose symbol the scan has just passed:
/// the text right before where the scan goes on is that symbol.
pub proof fn lemma_operator_token_is_its_symbol(s: Seq<char>, i: int)
    requires
        0 <= i <= s.len(),
    ensures
        next_token(s, i).0 matches TokenView::Operator(o) ==> {
            let e = next_token(s, i).1;
            &&& op_symbol(o).len() <= e <= s.len()
            &&& s.subrange(e - op_symbol(o).len(), e) == op_symbol(o)
        },
    decreases s.len() - i,
{
    lemma_skip_ws_from(s, i);
    let p = skip_ws_from(s, i);
    if p < s.len() {
        let c = s[p];
        if simple_token(c) is None && c != '>' && c != '<' && !is_digit(c) && !is_letter(c) {
            lemma_operator_token_is_its_symbol(s, p + 1);
        }
        match next_token(s, i).0 {
            TokenView::Operator(o) => {
                let e = next_token(s, i).1;
                if simple_token(c) is Some || c == '>' || c == '<' {
                    assert(s.subrange(e - op_symbol(o).len(), e) =~= op_symbol(o));
                }
            },
            _ => {},
        }
    }
}

/// A two-character operator is read whole: where the text (after
/// whitespace) starts with `<=`, `>=` or `<>`, the token is that operator.
pub proof fn lemma_two_char_operators(s: Seq<char>, i: int, o: Op)
    requires
        0 <= i <= s.len(),
        o == Op::Lte || o == Op::Gte || o == Op::Neq,
        skip_ws_from(s, i) + 2 <= s.len(),
        s.subrange(skip_ws_from(s, i), skip_ws_from(s, i) + 2) == op_symbol(o),
    ensures
        next_token(s, i) == (TokenView::Operator(o), skip_ws_from(s, i) + 2),
{
    lemma_skip_ws_from(s, i);
    let p = skip_ws_from(s, i);
    assert(s[p] == op_symbol(o)[0] && s[p + 1] == op_symbol(o)[1]) by {
        assert(s.subrange(p, p + 2)[0] == s[p]);
        assert(s.subrange(p, p + 2)[1] == s[p + 1]);
    }
}

pub proof fn lemma_number_end(s: Seq<char>, i: int, has_dot: bool)
    requires
        0 <= i <= s.len(),
    ensures
        i <= number_end(s, i, has_dot) <= s.len(),
    decreases s.len() - i,
{
    if i < s.len() && (is_digit(s[i]) || (s[i] == '.' && !has_dot)) {
        lemma_number_end(s, i + 1, has_dot || (!is_digit(s[i])));
    }
}

pub proof fn lemma_ident_end(s: Seq<char>, i: int)
    requires
        0 <= i <= s.len(),
    ensures
        i <= ident_end(s, i) <= s.len(),
    decreases s.len() - i,
{
    if i < s.len() && is_alnum(s[i]) {
        lemma_ident_end(s, i + 1);
    }
}

/// A token other than the end moves the scan forward, within the text.
pub proof fn lemma_next_token_advances(s: Seq<char>, i: int)
    requires
        0 <= i <= s.len(),
    ensures
        next_token(s, i).0 !is Eof ==> i < next_token(s, i).1 <= s.len(),
        i <= next_token(s, i).1 <= s.len(),
    decreases s.len() - i,
{
    lemma_skip_ws_from(s, i);
    let p = skip_ws_from(s, i);
    if p < s.len() {
        let c = s[p];
        if simple_token(c) is None && c != '>' && c != '<' {
            if is_digit(c) {
                lemma_number_end(s, p + 1, false);
                assert(number_end(s, p, false) > p);
            } else if is_letter(c) {
                lemma_ident_end(s, p);
                lemma_skip_ws_from(s, ident_end(s, p));
            } else {
                lemma_next_token_advances(s, p + 1);
            }
        }
    }
}

/// The tokens of `s` from `i` on, up to and including the first end token.
pub open spec fn tokenize_from(s: Seq<char>, i: int) -> Seq<TokenView>
    decreases s.len() - i,
{
    if i < 0 || i > s.len() {
        seq![TokenView::Eof]
    } else {
        let (t, p) = next_token(s, i);
        if t is Eof {
            seq![TokenView::Eof]
        } else {
            proof { lemma_next_token_advances(s, i); }
            seq![t] + tokenize_from(s, p)
        }
    }
}

/// Where the whitespace of `s` that starts at `i` ends.
fn skip_whitespace(s: &Vec<char>, i: usize) -> (r: usize)
    requires
        i <= s@.len(),
    ensures
        r == skip_ws_from(s@, i as int),
{
    proof { lemma_skip_ws_from(s@, i as int); }
    let mut k = i;
    while k < s.len() && char_is_whitespace(s[k])
        invariant
            i <= k <= s@.len(),
            skip_ws_from(s@, i as int) == skip_ws_from(s@, k as int),
        decreases s@.len() - k,
    {
        k += 1;
    }
    k
}

/// The token of `s` at `i` and where the scan goes on.
fn read_token(s: &Vec<char>, i: usize) -> (r: (Token, usize))
    requires
        i <= s@.len(),
    ensures
        (token_view(r.0), r.1 as int) == next_token(s@, i as int),
{
    let len = s.len();
    let mut k = i;
    loop
        invariant
            i <= k <= len == s@.len(),
            next_token(s@, i as int) == next_token(s@, k as int),
        decreases len - k,
    {
        let p = skip_whitespace(s, k);
        proof { lemma_skip_ws_from(s@, k as int); }
        if p >= len {
            return (Token::Eof, p);
        }
        let c = s[p];
        if c == '(' {
            return (Token::LeftParen, p + 1);
        } else if c == ')' {
            return (Token::RightParen, p + 1);
        } else if c == ',' {
            return (Token::Comma, p + 1);
        } else if c == ':' {
            return (Token::Colon, p + 1);
        } else if c == '+' {
            return (Token::Operator(Op::Add), p + 1);
        } else if c == '-' {
            return (Token::Operator(Op::Sub), p + 1);
        } else if c == '*' {
            return (Token::Operator(Op::Mul), p + 1);
        } else if c == '/' {
            return (Token::Operator(Op::Div), p + 1);
        } else if c == '%' {
            return (Token::Operator(Op::Mod), p + 1);
        } else if c == '=' {
            return (Token::Operator(Op::Eq), p + 1);
        } else if c == '>' {
            if p + 1 < len && s[p + 1] == '=' {
                return (Token::Operator(Op::Gte), p + 2);
            }
            return (Token::Operator(Op::Gt), p + 1);
        } else if c == '<' {
            if p + 1 < len && s[p + 1] == '=' {
                return (Token::Operator(Op::Lte), p + 2);
            } else if p + 1 < len && s[p + 1] == '>' {
                return (Token::Operator(Op::Neq), p + 2);
            }
            return (Token::Operator(Op::Lt), p + 1);
        } else if '0' <= c && c <= '9' {
            let mut e = p;
            let mut has_dot = false;
            proof { lemma_number_end(s@, p as int, false); }
            while e < len && (('0' <= s[e] && s[e] <= '9') || (s[e] == '.' && !has_dot))
                invariant
                    p <= e <= len == s@.len(),
                    number_end(s@, p as int, false) == number_end(s@, e as int, has_dot),
                decreases len - e,
            {
                if s[e] == '.' {
                    has_dot = true;
                }
                e += 1;
            }
            let text = string_of_range(s.as_slice(), p, e);
            return (Token::Number(text), e);
        } else if ('a' <= c && c <= 'z') || ('A' <= c && c <= 'Z') {
            let mut e = p;
            proof { lemma_ident_end(s@, p as int); }
            while e < len && char_is_alphanumeric(s[e])
                invariant
                    p <= e <= len == s@.len(),
                    ident_end(s@, p as int) == ident_end(s@, e as int),
                decreases len - e,
            {
                e += 1;
            }
            let id = string_of_range(s.as_slice(), p, e);
            let q = skip_whitespace(s, e);
            proof { lemma_skip_ws_from(s@, e as int); }
            if q < len && s[q] == '(' {
                return (Token::Function(to_uppercase(id.as_str())), q);
            }
            let idv = chars_of(id.as_str());
            if looks_like_cell(&idv) {
                match CellAddr::parse(id.as_str()) {
                    Ok(a) => {
                        return (Token::CellRef(a), q);
                    },
                    Err(_) => {
                        return (Token::Eof, q);
                    },
                }
            }
            return (Token::Eof, q);
        }
        assert(simple_token(c) is None);
        k = p + 1;
    }
}

/// Whether an identifier is ASCII letters followed by one or more ASCII digits.
fn looks_like_cell(t: &Vec<char>) -> (r: bool)
    ensures
        r == cell_ref_shape(t@),
{
    proof { crate::sheet::cell::lemma_letter_run(t@); }
    let len = t.len();
    let mut i: usize = 0;
    while i < len && (('a' <= t[i] && t[i] <= 'z') || ('A' <= t[i] && t[i] <= 'Z'))
        invariant
            i <= letter_run(t@),
            len == t@.len(),
            0 <= letter_run(t@) <= t@.len(),
            letter_run(t@) < t@.len() ==> !is_letter(t@[letter_run(t@)]),
            forall|x: int| 0 <= x < letter_run(t@) ==> is_letter(#[trigger] t@[x]),
        decreases len - i,
    {
        i += 1;
    }
    assert(i == letter_run(t@)) by {
        if i < letter_run(t@) {
            assert(is_letter(t@[i as int]));
        }
    }
    if i == 0 || i == len {
        return false;
    }
    let n = i;
    while i < len
        invariant
            n <= i <= len == t@.len(),
            n == letter_run(t@),
            forall|x: int| 0 <= x < i - n ==> is_digit(#[trigger] t@.skip(n as int)[x]),
        decreases len - i,
    {
        if !('0' <= t[i] && t[i] <= '9') {
            assert(!is_digit(t@.skip(n as int)[i - n]));
            return false;
        }
        i += 1;
    }
    true
}

/// The tokens of a formula, up to and including the first end token.
pub fn tokenize(input: &str) -> (r: Vec<Token>)
    ensures
        r@.map_values(|t: Token| token_view(t)) == tokenize_from(input@, 0),
{
    let s = chars_of(input);
    let ghost sv = input@;
    let mut out: Vec<Token> = Vec::new();
    let mut i: usize = 0;
    loop
        invariant
            s@ == sv,
            sv == input@,
            i <= sv.len(),
            out@.map_values(|t: Token| token_view(t)) + tokenize_from(sv, i as int) == tokenize_from(sv, 0),
        decreases sv.len() - i,
    {
        let (t, p) = read_token(&s, i);
        proof { lemma_next_token_advances(sv, i as int); }
        let ghost before = out@.map_values(|t: Token| token_view(t));
        let is_end = match t {
            Token::Eof => true,
            _ => false,
        };
        let ghost tv = token_view(t);
        out.push(t);
        assert(out@.map_values(|t: Token| token_view(t)) =~= before.push(tv));
        if is_end {
            assert(out@.map_values(|t: Token| token_view(t)) =~= before + tokenize_from(sv, i as int));
            assert(out@.map_values(|t: Token| token_view(t)) =~= out@.map_values(|t: Token| token_view(t)) + Seq::<TokenView>::empty());
            return out;
        }
        assert(before.push(tv) + tokenize_from(sv, p as int) =~= before + tokenize_from(sv, i as int));
        i = p;
    }
}

// ── Parsing ─────────────────────────────────────────────────────────────────

/// The token at `p`; past the end, the end token.
pub open spec fn tok_at(ts: Seq<TokenView>, p: int) -> TokenView {
    if 0 <= p < ts.len() { ts[p] } else { TokenView::Eof }
}

/// Comparison operators.
pub open spec fn is_comparison_op(o: Op) -> bool {
    o == Op::Gt || o == Op::Lt || o == Op::Gte || o == Op::Lte || o == Op::Eq || o == Op::Neq
}

/// Additive operators.
pub open spec fn is_add_op(o: Op) -> bool {
    o == Op::Add || o == Op::Sub
}

/// Multiplicative operators.
pub open spec fn is_mul_op(o: Op) -> bool {
    o == Op::Mul || o == Op::Div || o == Op::Mod
}

/// A binary operation.
pub open spec fn bin(op: Op, l: ExprView, r: ExprView) -> ExprView {
    ExprView::BinaryOp { op, left: Box::new(l), right: Box::new(r) }
}

/// An expression at `p`: comparisons of sums of products of atoms, each level
/// associating to the left. The result and the position after it.
pub open spec fn p_expr(ts: Seq<TokenView>, p: int) -> Option<(ExprView, int)>
    decreases ts.len() - p, 8int,
{
    match p_add(ts, p) {
        Some((l, q)) => if p <= q <= ts.len() { comparison_rest(ts, l, q) } else { None },
        None => None,
    }
}

/// Further comparisons after `left`, which ends at `q`.
pub open spec fn comparison_rest(ts: Seq<TokenView>, left: ExprView, q: int) -> Option<(ExprView, int)>
    decreases ts.len() - q, 6int,
{
    match tok_at(ts, q) {
        TokenView::Operator(op) => if is_comparison_op(op) {
            match p_add(ts, q + 1) {
                Some((r, q2)) => if q < q2 <= ts.len() { comparison_rest(ts, bin(op, left, r), q2) } else { None },
                None => None,
            }
        } else {
            Some((left, q))
        },
        _ => Some((left, q)),
    }
}

/// A sum at `p`.
pub open spec fn p_add(ts: Seq<TokenView>, p: int) -> Option<(ExprView, int)>
    decreases ts.len() - p, 5int,
{
    match p_mul(ts, p) {
        Some((l, q)) => if p <= q <= ts.len() { add_rest(ts, l, q) } else { None },
        None => None,
    }
}

/// Further terms after `left`, which ends at `q`.
pub open spec fn add_rest(ts: Seq<TokenView>, left: ExprView, q: int) -> Option<(ExprView, int)>
    decreases ts.len() - q, 4int,
{
    match tok_at(ts, q) {
        TokenView::Operator(op) => if is_add_op(op) {
            match p_mul(ts, q + 1) {
                Some((r, q2)) => if q < q2 <= ts.len() { add_rest(ts, bin(op, left, r), q2) } else { None },
                None => None,
            }
        } else {
            Some((left, q))
        },
        _ => Some((left, q)),
    }
}

/// A product at `p`.
pub open spec fn p_mul(ts: Seq<TokenView>, p: int) -> Option<(ExprView, int)>
    decreases ts.len() - p, 3int,
{
    match p_atom(ts, p) {
        Some((l, q)) => if p <= q <= ts.len() { mul_rest(ts, l, q) } else { None },
        None => None,
    }
}

/// Further factors after `left`, which ends at `q`.
pub open spec fn mul_rest(ts: Seq<TokenView>, left: ExprView, q: int) -> Option<(ExprView, int)>
    decreases ts.len() - q, 2int,
{
    match tok_at(ts, q) {
        TokenView::Operator(op) => if is_mul_op(op) {
            match p_atom(ts, q + 1) {
                Some((r, q2)) => if q < q2 <= ts.len() { mul_rest(ts, bin(op, left, r), q2) } else { None },
                None => None,
            }
        } else {
            Some((left, q))
        },
        _ => Some((left, q)),
    }
}

/// An atom at `p`: a number, a cell, a range `A1:B2`, a function call or a
/// parenthesized expression.
pub open spec fn p_atom(ts: Seq<TokenView>, p: int) -> Option<(ExprView, int)>
    decreases ts.len() - p, 1int,
{
    if p < 0 || p >= ts.len() {
        None
    } else {
        match ts[p] {
            TokenView::Number(n) => Some((ExprView::Number(n), p + 1)),
            TokenView::CellRef(a) => match tok_at(ts, p + 1) {
                TokenView::Colon => match tok_at(ts, p + 2) {
                    TokenView::CellRef(b) => Some((ExprView::Range(a, b), p + 3)),
                    _ => None,
                },
                _ => Some((ExprView::CellRef(a), p + 1)),
            },
            TokenView::Function(name) => match tok_at(ts, p + 1) {
                TokenView::LeftParen => match tok_at(ts, p + 2) {
                    TokenView::RightParen => Some((ExprView::FunctionCall { name, args: seq![] }, p + 3)),
                    _ => match p_expr(ts, p + 2) {
                        Some((e, q)) => if p < q <= ts.len() { fn_args(ts, name, seq![e], q) } else { None },
                        None => None,
                    },
                },
                _ => None,
            },
            TokenView::LeftParen => match p_expr(ts, p + 1) {
                Some((e, q)) => match tok_at(ts, q) {
                    TokenView::RightParen => Some((e, q + 1)),
                    _ => None,
                },
                None => None,
            },
            _ => None,
        }
    }
}

/// The rest of a function call's arguments after `args`, from `q`.
pub open spec fn fn_args(ts: Seq<TokenView>, name: Seq<char>, args: Seq<ExprView>, q: int) -> Option<
    (ExprView, int),
>
    decreases ts.len() - q, 0int,
{
    match tok_at(ts, q) {
        TokenView::Comma => match p_expr(ts, q + 1) {
            Some((e, q2)) => if q < q2 <= ts.len() { fn_args(ts, name, args.push(e), q2) } else { None },
            None => None,
        },
        TokenView::RightParen => Some((ExprView::FunctionCall { name, args }, q + 1)),
        _ => None,
    }
}

/// A formula parsed: an expression that runs up to the end token.
pub open spec fn parse_formula(input: Seq<char>) -> Option<ExprView> {
    let ts = tokenize_from(input, 0);
    match p_expr(ts, 0) {
        Some((e, q)) => if tok_at(ts, q) is Eof { Some(e) } else { None },
        None => None,
    }
}

/// The views of a token list.
pub open spec fn tokens_view(ts: Seq<Token>) -> Seq<TokenView> {
    ts.map_values(|t: Token| token_view(t))
}

/// A parse result agrees with its specification: the same expression and end
/// position, or an error exactly where the specification has none.
pub open spec fn parsed_as(r: Result<(Expr, usize), CellError>, s: Option<(ExprView, int)>) -> bool {
    match r {
        Ok((e, q)) => s == Some((expr_view(e), q as int)),
        Err(err) => s is None && err == CellError::ParseError,
    }
}

/// A successful parse from `p` ends past `p`, within the tokens.
pub open spec fn advanced(r: Result<(Expr, usize), CellError>, p: int, n: int) -> bool {
    match r {
        Ok((_, q)) => p < q <= n,
        Err(_) => true,
    }
}

proof fn lemma_args_view_push(s: Seq<Expr>, e: Expr, i: int)
    requires
        0 <= i <= s.len(),
    ensures
        args_view(s.push(e), i) == args_view(s, i).push(expr_view(e)),
    decreases s.len() - i,
{
    if i < s.len() {
        lemma_args_view_push(s, e, i + 1);
        assert(s.push(e)[i] == s[i]);
        assert(args_view(s.push(e), i) =~= seq![expr_view(s[i])] + args_view(s, i + 1).push(expr_view(e)));
    } else {
        assert(args_view(s.push(e), i + 1) =~= Seq::<ExprView>::empty());
        assert(args_view(s, i) =~= Seq::<ExprView>::empty());
        assert(args_view(s.push(e), i) =~= seq![expr_view(e)]);
    }
}

fn is_comparison(o: Op) -> (r: bool)
    ensures
        r == is_comparison_op(o),
{
    match o {
        Op::Gt | Op::Lt | Op::Gte | Op::Lte | Op::Eq | Op::Neq => true,
        _ => false,
    }
}

fn is_add(o: Op) -> (r: bool)
    ensures
        r == is_add_op(o),
{
    match o {
        Op::Add | Op::Sub => true,
        _ => false,
    }
}

fn is_mul(o: Op) -> (r: bool)
    ensures
        r == is_mul_op(o),
{
    match o {
        Op::Mul | Op::Div | Op::Mod => true,
        _ => false,
    }
}

/// The operator at `q`, if there is one there.
fn operator_at(ts: &Vec<Token>, q: usize) -> (r: Option<Op>)
    ensures
        match tok_at(tokens_view(ts@), q as int) {
            TokenView::Operator(o) => r == Some(o),
            _ => r is None,
        },
        r is Some ==> q < ts@.len(),
{
    if q < ts.len() {
        match &ts[q] {
            Token::Operator(o) => Some(*o),
            _ => None,
        }
    } else {
        None
    }
}

/// Whether the token at `q` is `)`, `,`, `(` or `:` (by `kind` 0 to 3).
fn punct_at(ts: &Vec<Token>, q: usize, kind: u8) -> (r: bool)
    ensures
        r == (match tok_at(tokens_view(ts@), q as int) {
            TokenView::RightParen => kind == 0,
            TokenView::Comma => kind == 1,
            TokenView::LeftParen => kind == 2,
            TokenView::Colon => kind == 3,
            _ => false,
        }),
        r ==> q < ts@.len(),
{
    if q < ts.len() {
        match &ts[q] {
            Token::RightParen => kind == 0,
            Token::Comma => kind == 1,
            Token::LeftParen => kind == 2,
            Token::Colon => kind == 3,
            _ => false,
        }
    } else {
        false
    }
}

/// Parse an expression at `p`.
fn parse_expr_at(ts: &Vec<Token>, p: usize) -> (r: Result<(Expr, usize), CellError>)
    requires
        p <= ts@.len(),
    ensures
        parsed_as(r, p_expr(tokens_view(ts@), p as int)),
        advanced(r, p as int, ts@.len() as int),
    decreases ts@.len() - p, 8int,
{
    let ghost tv = tokens_view(ts@);
    let n = ts.len();
    let (mut left, mut q) = match parse_add_at(ts, p) {
        Ok(x) => x,
        Err(e) => return Err(e),
    };
    loop
        invariant
            p < q <= ts@.len(),
            tv == tokens_view(ts@),
            tv.len() == ts@.len(),
            n == ts@.len(),
            p_expr(tv, p as int) == comparison_rest(tv, expr_view(left), q as int),
        decreases ts@.len() - q,
    {
        match operator_at(ts, q) {
            Some(op) => {
                if is_comparison(op) {
                    match parse_add_at(ts, q + 1) {
                        Ok((right, q2)) => {
                            left = Expr::BinaryOp { op, left: Box::new(left), right: Box::new(right) };
                            q = q2;
                        },
                        Err(e) => return Err(e),
                    }
                } else {
                    return Ok((left, q));
                }
            },
            None => return Ok((left, q)),
        }
    }
}

/// Parse a sum at `p`.
fn parse_add_at(ts: &Vec<Token>, p: usize) -> (r: Result<(Expr, usize), CellError>)
    requires
        p <= ts@.len(),
    ensures
        parsed_as(r, p_add(tokens_view(ts@), p as int)),
        advanced(r, p as int, ts@.len() as int),
    decreases ts@.len() - p, 5int,
{
    let ghost tv = tokens_view(ts@);
    let n = ts.len();
    let (mut left, mut q) = match parse_mul_at(ts, p) {
        Ok(x) => x,
        Err(e) => return Err(e),
    };
    loop
        invariant
            p < q <= ts@.len(),
            tv == tokens_view(ts@),
            tv.len() == ts@.len(),
            n == ts@.len(),
            p_add(tv, p as int) == add_rest(tv, expr_view(left), q as int),
        decreases ts@.len() - q,
    {
        match operator_at(ts, q) {
            Some(op) => {
                if is_add(op) {
                    match parse_mul_at(ts, q + 1) {
                        Ok((right, q2)) => {
                            left = Expr::BinaryOp { op, left: Box::new(left), right: Box::new(right) };
                            q = q2;
                        },
                        Err(e) => return Err(e),
                    }
                } else {
                    return Ok((left, q));
                }
            },
            None => return Ok((left, q)),
        }
    }
}

/// Parse a product at `p`.
fn parse_mul_at(ts: &Vec<Token>, p: usize) -> (r: Result<(Expr, usize), CellError>)
    requires
        p <= ts@.len(),
    ensures
        parsed_as(r, p_mul(tokens_view(ts@), p as int)),
        advanced(r, p as int, ts@.len() as int),
    decreases ts@.len() - p, 3int,
{
    let ghost tv = tokens_view(ts@);
    let n = ts.len();
    let (mut left, mut q) = match parse_atom_at(ts, p) {
        Ok(x) => x,
        Err(e) => return Err(e),
    };
    loop
        invariant
            p < q <= ts@.len(),
            tv == tokens_view(ts@),
            tv.len() == ts@.len(),
            n == ts@.len(),
            p_mul(tv, p as int) == mul_rest(tv, expr_view(left), q as int),
        decreases ts@.len() - q,
    {
        match operator_at(ts, q) {
            Some(op) => {
                if is_mul(op) {
                    match parse_atom_at(ts, q + 1) {
                        Ok((right, q2)) => {
                            left = Expr::BinaryOp { op, left: Box::new(left), right: Box::new(right) };
                            q = q2;
                        },
                        Err(e) => return Err(e),
                    }
                } else {
                    return Ok((left, q));
                }
            },
            None => return Ok((left, q)),
        }
    }
}

/// Parse an atom at `p`.
fn parse_atom_at(ts: &Vec<Token>, p: usize) -> (r: Result<(Expr, usize), CellError>)
    requires
        p <= ts@.len(),
    ensures
        parsed_as(r, p_atom(tokens_view(ts@), p as int)),
        advanced(r, p as int, ts@.len() as int),
    decreases ts@.len() - p, 1int,
{
    let ghost tv = tokens_view(ts@);
    if p >= ts.len() {
        return Err(CellError::ParseError);
    }
    assert(tv[p as int] == token_view(ts@[p as int]));
    match &ts[p] {
        Token::Number(n) => Ok((Expr::Number(n.clone()), p + 1)),
        Token::CellRef(a) => {
            let a = *a;
            if punct_at(ts, p + 1, 3) {
                if p + 2 < ts.len() {
                    assert(tv[p + 2] == token_view(ts@[p + 2]));
                    match &ts[p + 2] {
                        Token::CellRef(b) => {
                            return Ok((Expr::Range(a, *b), p + 3));
                        },
                        _ => {
                            return Err(CellError::ParseError);
                        },
                    }
                }
                Err(CellError::ParseError)
            } else {
                Ok((Expr::CellRef(a), p + 1))
            }
        },
        Token::Function(name) => {
            let name = name.clone();
            if !punct_at(ts, p + 1, 2) {
                return Err(CellError::ParseError);
            }
            if punct_at(ts, p + 2, 0) {
                let args: Vec<Expr> = Vec::new();
                assert(args_view(args@, 0) =~= Seq::<ExprView>::empty());
                return Ok((Expr::FunctionCall { name, args }, p + 3));
            }
            let (first, q0) = match parse_expr_at(ts, p + 2) {
                Ok(x) => x,
                Err(e) => return Err(e),
            };
            let mut args: Vec<Expr> = Vec::new();
            let ghost empty = args@;
            proof { lemma_args_view_push(empty, first, 0); }
            assert(args_view(empty, 0) =~= Seq::<ExprView>::empty());
            args.push(first);
            let n = ts.len();
            let mut q = q0;
            loop
                invariant
                    p < q <= ts@.len(),
                    tv == tokens_view(ts@),
            tv.len() == ts@.len(),
            n == ts@.len(),
                    p_atom(tv, p as int) == fn_args(tv, name@, args_view(args@, 0), q as int),
                decreases ts@.len() - q,
            {
                if punct_at(ts, q, 1) {
                    match parse_expr_at(ts, q + 1) {
                        Ok((e, q2)) => {
                            let ghost before = args@;
                            proof { lemma_args_view_push(before, e, 0); }
                            args.push(e);
                            q = q2;
                        },
                        Err(e) => return Err(e),
                    }
                } else if punct_at(ts, q, 0) {
                    return Ok((Expr::FunctionCall { name, args }, q + 1));
                } else {
                    return Err(CellError::ParseError);
                }
            }
        },
        Token::LeftParen => {
            let (e, q) = match parse_expr_at(ts, p + 1) {
                Ok(x) => x,
                Err(err) => return Err(err),
            };
            if punct_at(ts, q, 0) {
                Ok((e, q + 1))
            } else {
                Err(CellError::ParseError)
            }
        },
        _ => Err(CellError::ParseError),
    }
}

/// Parse a formula (without its leading `=`) into an expression; the
/// expression must run up to the end of the tokens.
pub fn parse(input: &str) -> (r: Result<Expr, CellError>)
    ensures
        match r {
            Ok(e) => parse_formula(input@) == Some(expr_view(e)),
            Err(err) => parse_formula(input@) is None && err == CellError::ParseError,
        },
{
    let ts = tokenize(input);
    let (e, q) = match parse_expr_at(&ts, 0) {
        Ok(x) => x,
        Err(err) => return Err(err),
    };
    if q < ts.len() {
        match &ts[q] {
            Token::Eof => {},
            _ => {
                assert(tokens_view(ts@)[q as int] == token_view(ts@[q as int]));
                return Err(CellError::ParseError);
            },
        }
        assert(tokens_view(ts@)[q as int] == token_view(ts@[q as int]));
    }
    Ok(e)
}

// ── Dependencies ────────────────────────────────────────────────────────────

/// The range between two corners, whichever way round they were given.
pub open spec fn normalized(a: CellAddr, b: CellAddr) -> CellRange {
    CellRange {
        start: CellAddr {
            col: if a.col <= b.col { a.col } else { b.col },
            row: if a.row <= b.row { a.row } else { b.row },
        },
        end: CellAddr {
            col: if a.col >= b.col { a.col } else { b.col },
            row: if a.row >= b.row { a.row } else { b.row },
        },
    }
}

/// The cells an expression refers to, in order: each reference, and each
/// cell of each range row by row.
pub open spec fn deps_of(e: ExprView) -> Seq<CellAddr>
    decreases e, 0int,
{
    match e {
        ExprView::Number(_) => seq![],
        ExprView::CellRef(a) => seq![a],
        ExprView::Range(a, b) => range_cells(normalized(a, b)),
        ExprView::BinaryOp { left, right, .. } => deps_of(*left) + deps_of(*right),
        ExprView::FunctionCall { args, .. } => args_deps(args, 0),
    }
}

/// The cells the expressions of `s` from index `i` on refer to.
pub open spec fn args_deps(s: Seq<ExprView>, i: int) -> Seq<CellAddr>
    decreases s, s.len() - i,
{
    if i < 0 || i >= s.len() {
        seq![]
    } else {
        deps_of(s[i]) + args_deps(s, i + 1)
    }
}

/// Appends the cells of the range `c0..=c1` by `r0..=r1`, row by row.
fn push_range_cells(deps: &mut Vec<CellAddr>, c0: usize, c1: usize, r0: usize, r1: usize)
    requires
        c0 <= c1,
        r0 <= r1,
    ensures
        final(deps)@ == old(deps)@ + range_cells(
            CellRange { start: CellAddr { col: c0, row: r0 }, end: CellAddr { col: c1, row: r1 } },
        ),
{
    let ghost rg = CellRange { start: CellAddr { col: c0, row: r0 }, end: CellAddr { col: c1, row: r1 } };
    let mut r = r0;
    loop
        invariant_except_break
            r0 <= r <= r1,
            deps@ + rows_cells(rg, r as int) == old(deps)@ + range_cells(rg),
        invariant
            c0 <= c1,
            r0 <= r1,
            rg == (CellRange { start: CellAddr { col: c0, row: r0 }, end: CellAddr { col: c1, row: r1 } }),
        ensures
            deps@ == old(deps)@ + range_cells(rg),
        decreases r1 - r,
    {
        let ghost before = deps@;
        let mut c = c0;
        loop
            invariant_except_break
                c0 <= c <= c1,
                deps@ == before + row_cells(rg, r as int).take(c - c0),
            invariant
                c0 <= c1,
                r0 <= r <= r1,
                rg == (CellRange { start: CellAddr { col: c0, row: r0 }, end: CellAddr { col: c1, row: r1 } }),
            ensures
                deps@ == before + row_cells(rg, r as int),
            decreases c1 - c,
        {
            deps.push(CellAddr { col: c, row: r });
            assert(row_cells(rg, r as int).take(c - c0 + 1) =~= row_cells(rg, r as int).take(c - c0).push(
                CellAddr { col: c, row: r },
            ));
            if c == c1 {
                assert(row_cells(rg, r as int).take(c - c0 + 1) =~= row_cells(rg, r as int));
                break;
            }
            c += 1;
        }
        assert(deps@ + rows_cells(rg, r + 1) =~= before + rows_cells(rg, r as int));
        if r == r1 {
            assert(rows_cells(rg, r + 1) =~= Seq::<CellAddr>::empty());
            assert(deps@ =~= deps@ + Seq::<CellAddr>::empty());
            break;
        }
        r += 1;
    }
}

/// Appends the cells `expr` refers to.
fn extract_dependencies_recursive(expr: &Expr, deps: &mut Vec<CellAddr>)
    ensures
        final(deps)@ == old(deps)@ + deps_of(expr_view(*expr)),
    decreases expr,
{
    match expr {
        Expr::CellRef(addr) => {
            deps.push(*addr);
        },
        Expr::Range(start, end) => {
            let c0 = if start.col <= end.col { start.col } else { end.col };
            let c1 = if start.col >= end.col { start.col } else { end.col };
            let r0 = if start.row <= end.row { start.row } else { end.row };
            let r1 = if start.row >= end.row { start.row } else { end.row };
            push_range_cells(deps, c0, c1, r0, r1);
        },
        Expr::BinaryOp { left, right, .. } => {
            extract_dependencies_recursive(left, deps);
            extract_dependencies_recursive(right, deps);
            assert(deps@ =~= old(deps)@ + deps_of(expr_view(*expr)));
        },
        Expr::FunctionCall { args, .. } => {
            let mut i: usize = 0;
            while i < args.len()
                invariant
                    i <= args@.len(),
                    (*expr) is FunctionCall,
                    (*expr)->args == *args,
                    deps@ + args_deps(args_view(args@, 0), i as int) == old(deps)@ + args_deps(
                        args_view(args@, 0),
                        0,
                    ),
                decreases args@.len() - i,
            {
                proof {
                    lemma_args_view_index(args@, 0, i as int);
                    assert(decreases_to!(*expr => (*expr)->args));
                    assert(decreases_to!((*expr)->args => (*expr)->args@));
                    assert(decreases_to!((*expr)->args@ => (*expr)->args@[i as int]));
                    assert(decreases_to!(*expr => args@[i as int]));
                }
                let ghost before = deps@;
                extract_dependencies_recursive(&args[i], deps);
                assert(deps@ + args_deps(args_view(args@, 0), i + 1) =~= before + args_deps(
                    args_view(args@, 0),
                    i as int,
                ));
                i += 1;
            }
            proof { lemma_args_view_index(args@, 0, args@.len() as int); }
            assert(deps@ =~= deps@ + args_deps(args_view(args@, 0), i as int));
        },
        Expr::Number(_) => {
            assert(deps@ =~= old(deps)@ + Seq::<CellAddr>::empty());
        },
    }
}

/// The views of a list line up with the list.
proof fn lemma_args_view_index(s: Seq<Expr>, i: int, k: int)
    requires
        0 <= i <= s.len(),
        0 <= k <= s.len(),
    ensures
        args_view(s, i).len() == s.len() - i,
        i <= k < s.len() ==> args_view(s, i)[k - i] == expr_view(s[k]),
        args_view(s, 0).len() == s.len(),
        0 <= k < s.len() ==> args_view(s, 0)[k] == expr_view(s[k]),
    decreases s.len() - i,
{
    if i < s.len() {
        lemma_args_view_index(s, i + 1, k);
    }
    if i > 0 {
        lemma_args_view_index_from0(s, k);
    }
}

proof fn lemma_args_view_index_from0(s: Seq<Expr>, k: int)
    requires
        0 <= k <= s.len(),
    ensures
        args_view(s, 0).len() == s.len(),
        0 <= k < s.len() ==> args_view(s, 0)[k] == expr_view(s[k]),
{
    lemma_args_view_from(s, 0, k);
}

proof fn lemma_args_view_from(s: Seq<Expr>, i: int, k: int)
    requires
        0 <= i <= s.len(),
    ensures
        args_view(s, i).len() == s.len() - i,
        i <= k < s.len() ==> args_view(s, i)[k - i] == expr_view(s[k]),
    decreases s.len() - i,
{
    if i < s.len() {
        lemma_args_view_from(s, i + 1, k);
    }
}

/// The cells an expression refers to, in order.
pub fn extract_dependencies(expr: &Expr) -> (r: Vec<CellAddr>)
    ensures
        r@ == deps_of(expr_view(*expr)),
{
    let mut deps: Vec<CellAddr> = Vec::new();
    extract_dependencies_recursive(expr, &mut deps);
    assert(deps@ =~= deps_of(expr_view(*expr)));
    deps
}

// ── Dependency graph ────────────────────────────────────────────────────────

/// For each cell, the cells whose formulas refer to it.
pub struct DependencyGraph {
    dependents: Vec<(CellAddr, Vec<CellAddr>)>,
}

/// The list of the first entry for `c`, empty when there is none.
spec fn lookup(es: Seq<(CellAddr, Vec<CellAddr>)>, c: CellAddr) -> Seq<CellAddr>
    decreases es.len(),
{
    if es.len() == 0 {
        seq![]
    } else if es[0].0 == c {
        es[0].1@
    } else {
        lookup(es.drop_first(), c)
    }
}

/// Every cell the entries mention, as keys or in lists.
spec fn all_nodes(es: Seq<(CellAddr, Vec<CellAddr>)>) -> Seq<CellAddr>
    decreases es.len(),
{
    if es.len() == 0 {
        seq![]
    } else {
        seq![es[0].0] + es[0].1@ + all_nodes(es.drop_first())
    }
}

/// How often `c` occurs in `s`.
pub open spec fn count_of(s: Seq<CellAddr>, c: CellAddr) -> nat
    decreases s.len(),
{
    if s.len() == 0 {
        0
    } else {
        count_of(s.drop_last(), c) + if s.last() == c { 1nat } else { 0nat }
    }
}

/// A list without any occurrence of `cell`.
pub open spec fn without(s: Seq<CellAddr>, cell: CellAddr) -> Seq<CellAddr>
    decreases s.len(),
{
    if s.len() == 0 {
        seq![]
    } else if s.last() == cell {
        without(s.drop_last(), cell)
    } else {
        without(s.drop_last(), cell).push(s.last())
    }
}

impl DependencyGraph {
    /// The cells that depend on `c`, in the order they were recorded.
    pub closed spec fn dependents_of(&self, c: CellAddr) -> Seq<CellAddr> {
        lookup(self.dependents@, c)
    }

    /// Every cell the graph mentions, and `extra`.
    pub closed spec fn universe(&self, extra: CellAddr) -> Set<CellAddr> {
        all_nodes(self.dependents@).to_set().insert(extra)
    }

    /// An empty graph.
    pub fn new() -> (r: Self)
        ensures
            forall|c: CellAddr| #[trigger] r.dependents_of(c) == Seq::<CellAddr>::empty(),
    {
        DependencyGraph { dependents: Vec::new() }
    }

    /// The cells that depend on `cell`.
    pub fn get_dependents(&self, cell: CellAddr) -> (r: Vec<CellAddr>)
        ensures
            r@ == self.dependents_of(cell),
    {
        let mut i: usize = 0;
        assert(self.dependents@.skip(0) =~= self.dependents@);
        while i < self.dependents.len()
            invariant
                i <= self.dependents@.len(),
                lookup(self.dependents@, cell) == lookup(self.dependents@.skip(i as int), cell),
            decreases self.dependents@.len() - i,
        {
            assert(self.dependents@.skip(i as int).drop_first() =~= self.dependents@.skip(i + 1));
            if self.dependents[i].0 == cell {
                let list = &self.dependents[i].1;
                let mut out: Vec<CellAddr> = Vec::new();
                let mut k: usize = 0;
                while k < list.len()
                    invariant
                        k <= list@.len(),
                        out@ == list@.take(k as int),
                    decreases list@.len() - k,
                {
                    out.push(list[k]);
                    assert(list@.take(k + 1) =~= list@.take(k as int).push(list@[k as int]));
                    k += 1;
                }
                assert(list@.take(list@.len() as int) =~= list@);
                return out;
            }
            i += 1;
        }
        Vec::new()
    }
}

proof fn lemma_lookup_in_nodes(es: Seq<(CellAddr, Vec<CellAddr>)>, c: CellAddr, i: int)
    requires
        0 <= i < lookup(es, c).len(),
    ensures
        all_nodes(es).contains(lookup(es, c)[i]),
    decreases es.len(),
{
    if es.len() > 0 {
        if es[0].0 == c {
            assert(all_nodes(es)[1 + i] == lookup(es, c)[i]);
        } else {
            lemma_lookup_in_nodes(es.drop_first(), c, i);
            let k = choose|k: int| 0 <= k < all_nodes(es.drop_first()).len() && all_nodes(es.drop_first())[k] == lookup(es, c)[i];
            assert(all_nodes(es)[1 + es[0].1@.len() + k] == lookup(es, c)[i]);
        }
    }
}

/// `a` is `b` with `cell` taken out of every list.
spec fn entries_filtered(a: Seq<(CellAddr, Vec<CellAddr>)>, b: Seq<(CellAddr, Vec<CellAddr>)>, cell: CellAddr) -> bool {
    &&& a.len() == b.len()
    &&& forall|j: int| 0 <= j < a.len() ==> (#[trigger] a[j]).0 == b[j].0 && a[j].1@ == without(b[j].1@, cell)
}

proof fn lemma_lookup_filtered(a: Seq<(CellAddr, Vec<CellAddr>)>, b: Seq<(CellAddr, Vec<CellAddr>)>, cell: CellAddr, c: CellAddr)
    requires
        entries_filtered(a, b, cell),
    ensures
        lookup(a, c) == without(lookup(b, c), cell),
    decreases a.len(),
{
    if a.len() > 0 {
        if a[0].0 != c {
            assert forall|j: int| 0 <= j < a.drop_first().len() implies (#[trigger] a.drop_first()[j]).0
                == b.drop_first()[j].0 && a.drop_first()[j].1@ == without(b.drop_first()[j].1@, cell) by {
                assert(a.drop_first()[j] == a[j + 1]);
                assert(b.drop_first()[j] == b[j + 1]);
            }
            lemma_lookup_filtered(a.drop_first(), b.drop_first(), cell, c);
        }
    } else {
        assert(without(Seq::<CellAddr>::empty(), cell) =~= Seq::<CellAddr>::empty());
    }
}

/// Index of the first entry for `c`.
spec fn first_key(es: Seq<(CellAddr, Vec<CellAddr>)>, c: CellAddr, i: int) -> Option<int>
    decreases es.len() - i,
{
    if i < 0 || i >= es.len() {
        None
    } else if es[i].0 == c {
        Some(i)
    } else {
        first_key(es, c, i + 1)
    }
}

proof fn lemma_lookup_first_key(es: Seq<(CellAddr, Vec<CellAddr>)>, c: CellAddr)
    ensures
        match first_key(es, c, 0) {
            Some(j) => 0 <= j < es.len() && lookup(es, c) == es[j].1@ && es[j].0 == c,
            None => lookup(es, c) == Seq::<CellAddr>::empty(),
        },
    decreases es.len(),
{
    if es.len() > 0 {
        lemma_lookup_first_key(es.drop_first(), c);
        lemma_first_key_shift(es, c, 0);
    }
}

proof fn lemma_first_key_shift(es: Seq<(CellAddr, Vec<CellAddr>)>, c: CellAddr, i: int)
    requires
        0 <= i < es.len(),
    ensures
        es[i].0 != c ==> first_key(es, c, i + 1) == (match first_key(es.drop_first(), c, i) {
            Some(j) => Some(j + 1),
            None => None::<int>,
        }),
        es[i].0 != c && i == 0 ==> first_key(es, c, 0) == (match first_key(es.drop_first(), c, 0) {
            Some(j) => Some(j + 1),
            None => None::<int>,
        }),
    decreases es.len() - i,
{
    if i + 1 < es.len() && es[i].0 != c {
        if es[i + 1].0 != c {
            lemma_first_key_shift(es, c, i + 1);
        }
        assert(es.drop_first()[i] == es[i + 1]);
    }
}

proof fn lemma_first_key_bounds(es: Seq<(CellAddr, Vec<CellAddr>)>, c: CellAddr, i: int)
    ensures
        first_key(es, c, i) matches Some(j) ==> i <= j < es.len() && es[j].0 == c,
    decreases es.len() - i,
{
    if 0 <= i < es.len() && es[i].0 != c {
        lemma_first_key_bounds(es, c, i + 1);
    }
}

/// Appending `cell` to the list of the first entry for `dep` (a new entry when
/// there is none) appends it to what `lookup` gives for `dep` and nothing else.
proof fn lemma_lookup_append(es: Seq<(CellAddr, Vec<CellAddr>)>, ns: Seq<(CellAddr, Vec<CellAddr>)>, dep: CellAddr, cell: CellAddr, c: CellAddr)
    requires
        match first_key(es, dep, 0) {
            Some(j) => ns.len() == es.len() && ns[j].0 == dep && ns[j].1@ == es[j].1@.push(cell) && forall|k: int|
                0 <= k < es.len() && k != j ==> #[trigger] ns[k] == es[k],
            None => ns.len() == es.len() + 1 && ns[es.len() as int].0 == dep && ns[es.len() as int].1@ == seq![cell]
                && forall|k: int| 0 <= k < es.len() ==> #[trigger] ns[k] == es[k],
        },
    ensures
        lookup(ns, c) == (if c == dep { lookup(es, c).push(cell) } else { lookup(es, c) }),
    decreases es.len(),
{
    if es.len() == 0 {
        assert(first_key(es, dep, 0) is None);
        assert(ns.drop_first() =~= Seq::<(CellAddr, Vec<CellAddr>)>::empty());
        assert(seq![cell] =~= Seq::<CellAddr>::empty().push(cell));
        assert(lookup(es, c) == Seq::<CellAddr>::empty());
        assert(ns[0].0 == dep);
        assert(lookup(ns.drop_first(), c) == Seq::<CellAddr>::empty());
        assert(lookup(ns, c) == (if c == dep { lookup(es, c).push(cell) } else { lookup(es, c) }));
    } else if es[0].0 == dep {
        assert(first_key(es, dep, 0) == Some(0int));
        if c != dep {
            assert(ns.drop_first() =~= es.drop_first());
        }
        assert(lookup(ns, c) == (if c == dep { lookup(es, c).push(cell) } else { lookup(es, c) }));
    } else {
        lemma_first_key_shift(es, dep, 0);
        lemma_first_key_bounds(es, dep, 0);
        let es1 = es.drop_first();
        let ns1 = ns.drop_first();
        lemma_first_key_bounds(es1, dep, 0);
        match first_key(es1, dep, 0) {
            Some(j) => {
                assert(first_key(es, dep, 0) == Some(j + 1));
                assert(ns[0] == es[0]);
                assert forall|k: int| 0 <= k < es1.len() && k != j implies #[trigger] ns1[k] == es1[k] by {
                    assert(ns1[k] == ns[k + 1]);
                    assert(es1[k] == es[k + 1]);
                }
                assert(ns1[j] == ns[j + 1]);
                assert(es1[j] == es[j + 1]);
            },
            None => {
                assert(first_key(es, dep, 0) is None);
                assert(ns[0] == es[0]);
                assert forall|k: int| 0 <= k < es1.len() implies #[trigger] ns1[k] == es1[k] by {
                    assert(ns1[k] == ns[k + 1]);
                    assert(es1[k] == es[k + 1]);
                }
                assert(ns1[es1.len() as int] == ns[es.len() as int]);
            },
        }
        lemma_lookup_append(es1, ns1, dep, cell, c);
        assert(lookup(ns, c) == (if c == dep { lookup(es, c).push(cell) } else { lookup(es, c) }));
    }
}

/// Index of the first entry for `c`.
fn find_key(es: &Vec<(CellAddr, Vec<CellAddr>)>, c: CellAddr) -> (r: Option<usize>)
    ensures
        match r {
            Some(j) => first_key(es@, c, 0) == Some(j as int),
            None => first_key(es@, c, 0) is None,
        },
{
    let mut j: usize = 0;
    while j < es.len()
        invariant
            j <= es@.len(),
            first_key(es@, c, 0) == first_key(es@, c, j as int),
        decreases es@.len() - j,
    {
        if es[j].0 == c {
            return Some(j);
        }
        j += 1;
    }
    None
}

/// The list without occurrences of `cell`.
fn filter_out(list: &Vec<CellAddr>, cell: CellAddr) -> (r: Vec<CellAddr>)
    ensures
        r@ == without(list@, cell),
{
    let mut out: Vec<CellAddr> = Vec::new();
    let mut k: usize = 0;
    while k < list.len()
        invariant
            k <= list@.len(),
            out@ == without(list@.take(k as int), cell),
        decreases list@.len() - k,
    {
        assert(list@.take(k + 1).drop_last() =~= list@.take(k as int));
        assert(list@.take(k + 1).last() == list@[k as int]);
        if list[k] != cell {
            out.push(list[k]);
        }
        k += 1;
    }
    assert(list@.take(list@.len() as int) =~= list@);
    out
}

impl DependencyGraph {
    /// Record that `cell` now depends on the cells `expr` refers to: `cell` is
    /// taken out of every list, then appended to the list of each referenced
    /// cell, once per reference.
    pub fn update_deps(&mut self, cell: CellAddr, expr: &Expr)
        ensures
            forall|c: CellAddr| #[trigger]
                final(self).dependents_of(c) == without(old(self).dependents_of(c), cell) + Seq::new(
                    count_of(deps_of(expr_view(*expr)), c),
                    |i: int| cell,
                ),
    {
        let ghost orig = self.dependents@;
        let mut entries: Vec<(CellAddr, Vec<CellAddr>)> = Vec::new();
        let mut i: usize = 0;
        while i < self.dependents.len()
            invariant
                i <= self.dependents@.len(),
                self.dependents@ == orig,
                entries_filtered(entries@, orig.take(i as int), cell),
            decreases self.dependents@.len() - i,
        {
            let key = self.dependents[i].0;
            let kept = filter_out(&self.dependents[i].1, cell);
            entries.push((key, kept));
            i += 1;
        }
        assert(orig.take(orig.len() as int) =~= orig);
        proof {
            assert forall|c: CellAddr| #[trigger] lookup(entries@, c) == without(lookup(orig, c), cell) by {
                lemma_lookup_filtered(entries@, orig, cell, c);
            }
        }
        let deps = extract_dependencies(expr);
        let ghost ds = deps@;
        let mut k: usize = 0;
        while k < deps.len()
            invariant
                k <= ds.len(),
                ds == deps@,
                ds == deps_of(expr_view(*expr)),
                forall|c: CellAddr| #[trigger]
                    lookup(entries@, c) == without(lookup(orig, c), cell) + Seq::new(
                        count_of(ds.take(k as int), c),
                        |i: int| cell,
                    ),
            decreases ds.len() - k,
        {
            let dep = deps[k];
            let ghost before = entries@;
            let found = find_key(&entries, dep);
            proof { lemma_first_key_bounds(before, dep, 0); }
            match found {
                Some(j) => {
                    entries[j].1.push(cell);
                },
                None => {
                    let mut fresh: Vec<CellAddr> = Vec::new();
                    fresh.push(cell);
                    entries.push((dep, fresh));
                },
            }
            proof {
                assert forall|c: CellAddr| #[trigger]
                    lookup(entries@, c) == without(lookup(orig, c), cell) + Seq::new(
                        count_of(ds.take(k + 1), c),
                        |i: int| cell,
                    ) by {
                    lemma_lookup_append(before, entries@, dep, cell, c);
                    assert(ds.take(k + 1).drop_last() =~= ds.take(k as int));
                    if c == dep {
                        assert(Seq::new(count_of(ds.take(k + 1), c), |i: int| cell) =~= Seq::new(
                            count_of(ds.take(k as int), c),
                            |i: int| cell,
                        ).push(cell));
                    }
                }
            }
            k += 1;
        }
        assert(ds.take(ds.len() as int) =~= ds);
        self.dependents = entries;
    }
}

pub proof fn lemma_difference_shrinks(u: Set<CellAddr>, p: Set<CellAddr>, x: CellAddr)
    requires
        u.finite(),
        u.contains(x),
        !p.contains(x),
    ensures
        u.difference(p.insert(x)).len() < u.difference(p).len(),
{
    assert(u.difference(p.insert(x)) =~= u.difference(p).remove(x));
    vstd::set::axiom_set_difference_finite(u, p);
    vstd::set::axiom_set_remove_len(u.difference(p), x);
}

/// Depth-first search from `cell`. `path` holds the cells on the way down
/// (meeting one again is a cycle: `None`); `vis` the finished cells; `res`
/// the finished cells in the order they were finished, each after all its
/// dependents.
pub open spec fn dfs(
    g: DependencyGraph,
    u: Set<CellAddr>,
    path: Set<CellAddr>,
    cell: CellAddr,
    vis: Set<CellAddr>,
    res: Seq<CellAddr>,
) -> Option<(Set<CellAddr>, Seq<CellAddr>)>
    decreases u.difference(path).len(), 0int, 0int,
{
    if path.contains(cell) {
        None
    } else if vis.contains(cell) {
        Some((vis, res))
    } else if u.finite() && u.contains(cell) {
        proof { lemma_difference_shrinks(u, path, cell); }
        match dfs_list(g, u, path.insert(cell), g.dependents_of(cell), 0, vis, res) {
            Some((v2, r2)) => Some((v2.insert(cell), r2.push(cell))),
            None => None,
        }
    } else {
        Some((vis, res))
    }
}

/// The search from the cells `list[k..]` in turn.
pub open spec fn dfs_list(
    g: DependencyGraph,
    u: Set<CellAddr>,
    path: Set<CellAddr>,
    list: Seq<CellAddr>,
    k: int,
    vis: Set<CellAddr>,
    res: Seq<CellAddr>,
) -> Option<(Set<CellAddr>, Seq<CellAddr>)>
    decreases u.difference(path).len(), 1int, list.len() - k,
{
    if k < 0 || k >= list.len() {
        Some((vis, res))
    } else {
        match dfs(g, u, path, list[k], vis, res) {
            Some((v2, r2)) => dfs_list(g, u, path, list, k + 1, v2, r2),
            None => None,
        }
    }
}

/// The cells to recalculate after `changed` changed: the search's finishing
/// order reversed, so that each cell comes before its dependents; `None` on
/// a cycle.
pub open spec fn recalc_order(g: DependencyGraph, changed: CellAddr) -> Option<Seq<CellAddr>> {
    match dfs(g, g.universe(changed), Set::empty(), changed, Set::empty(), seq![]) {
        Some((_, r)) => Some(r.reverse()),
        None => None,
    }
}

/// A finishing order: it lists the finished cells once each, and every
/// dependent of a listed cell is listed before it.
pub open spec fn finish_order(g: DependencyGraph, vis: Set<CellAddr>, res: Seq<CellAddr>) -> bool {
    &&& forall|x: CellAddr| vis.contains(x) <==> res.contains(x)
    &&& forall|i: int, j: int| 0 <= i < j < res.len() ==> res[i] != res[j]
    &&& forall|j: int, k: int| 0 <= j < res.len() && 0 <= k < g.dependents_of(res[j]).len()
        ==> listed_before(res, j, #[trigger] g.dependents_of(res[j])[k])
}

/// `d` stands in `s` before index `j`.
pub open spec fn listed_before(s: Seq<CellAddr>, j: int, d: CellAddr) -> bool {
    exists|i: int| 0 <= i < j && s[i] == d
}

/// `d` stands in `s` after index `j`.
pub open spec fn listed_after(s: Seq<CellAddr>, j: int, d: CellAddr) -> bool {
    exists|i: int| j < i < s.len() && s[i] == d
}

/// A recalculation order: each cell once, and every dependent of a cell in
/// the order comes after that cell.
pub open spec fn topological(g: DependencyGraph, o: Seq<CellAddr>) -> bool {
    &&& forall|i: int, j: int| 0 <= i < j < o.len() ==> o[i] != o[j]
    &&& forall|j: int, k: int| 0 <= j < o.len() && 0 <= k < g.dependents_of(o[j]).len()
        ==> listed_after(o, j, #[trigger] g.dependents_of(o[j])[k])
}

/// What a search keeps: the order stays a finishing order that extends the
/// old one; the cells it newly finishes are off the path.
pub open spec fn search_kept(
    g: DependencyGraph,
    path: Set<CellAddr>,
    vis: Set<CellAddr>,
    res: Seq<CellAddr>,
    v2: Set<CellAddr>,
    r2: Seq<CellAddr>,
) -> bool {
    &&& finish_order(g, v2, r2)
    &&& res.len() <= r2.len()
    &&& r2.take(res.len() as int) == res
    &&& forall|x: CellAddr| vis.contains(x) ==> v2.contains(x)
    &&& forall|x: CellAddr| v2.contains(x) && !vis.contains(x) ==> !path.contains(x)
}

pub proof fn lemma_dfs_order(
    g: DependencyGraph,
    u: Set<CellAddr>,
    path: Set<CellAddr>,
    cell: CellAddr,
    vis: Set<CellAddr>,
    res: Seq<CellAddr>,
)
    requires
        finish_order(g, vis, res),
        forall|x: CellAddr| vis.contains(x) ==> !path.contains(x),
        u.finite(),
        u.contains(cell),
        forall|c: CellAddr, i: int| 0 <= i < g.dependents_of(c).len() ==> u.contains(#[trigger] g.dependents_of(c)[i]),
    ensures
        match dfs(g, u, path, cell, vis, res) {
            Some((v2, r2)) => search_kept(g, path, vis, res, v2, r2) && v2.contains(cell),
            None => true,
        },
    decreases u.difference(path).len(), 0int, 0int,
{
    if path.contains(cell) {
    } else if vis.contains(cell) {
        assert(res.take(res.len() as int) =~= res);
    } else {
        lemma_difference_shrinks(u, path, cell);
        let list = g.dependents_of(cell);
        let p2 = path.insert(cell);
        lemma_dfs_list_order(g, u, p2, list, 0, vis, res);
        match dfs_list(g, u, p2, list, 0, vis, res) {
            Some((v2, r2)) => {
                assert(!v2.contains(cell));
                assert(!r2.contains(cell));
                let v3 = v2.insert(cell);
                let r3 = r2.push(cell);
                assert forall|x: CellAddr| v3.contains(x) <==> r3.contains(x) by {
                    if r3.contains(x) && x != cell {
                        let i = choose|i: int| 0 <= i < r3.len() && r3[i] == x;
                        assert(r2[i] == x);
                    }
                    if r2.contains(x) {
                        let i = choose|i: int| 0 <= i < r2.len() && r2[i] == x;
                        assert(r3[i] == x);
                    }
                    if x == cell {
                        assert(r3[r2.len() as int] == x);
                    }
                }
                assert forall|i: int, j: int| 0 <= i < j < r3.len() implies r3[i] != r3[j] by {
                    if j == r2.len() {
                        assert(r2.contains(r2[i]));
                    } else {
                        assert(r3[i] == r2[i] && r3[j] == r2[j]);
                    }
                }
                assert forall|j: int, k: int| 0 <= j < r3.len() && 0 <= k < g.dependents_of(r3[j]).len()
                    implies listed_before(r3, j, #[trigger] g.dependents_of(r3[j])[k]) by {
                    if j < r2.len() {
                        assert(r3[j] == r2[j]);
                        assert(0 <= k < g.dependents_of(r2[j]).len());
                        let dk = g.dependents_of(r2[j])[k];
                        assert(dk == g.dependents_of(r3[j])[k]);
                        assert(listed_before(r2, j, dk));
                        let i = choose|i: int| 0 <= i < j && r2[i] == dk;
                        assert(r3[i] == r2[i]);
                        assert(0 <= i < j && r3[i] == g.dependents_of(r3[j])[k]);
                    } else {
                        assert(r3[j] == cell);
                        let d = list[k];
                        assert(v2.contains(d));
                        assert(r2.contains(d));
                        let i = choose|i: int| 0 <= i < r2.len() && r2[i] == d;
                        assert(r3[i] == r2[i]);
                        assert(0 <= i < j && r3[i] == g.dependents_of(r3[j])[k]);
                    }
                }
                assert(r3.take(res.len() as int) =~= r2.take(res.len() as int));
            },
            None => {},
        }
    }
}

pub proof fn lemma_dfs_list_order(
    g: DependencyGraph,
    u: Set<CellAddr>,
    path: Set<CellAddr>,
    list: Seq<CellAddr>,
    k: int,
    vis: Set<CellAddr>,
    res: Seq<CellAddr>,
)
    requires
        0 <= k,
        finish_order(g, vis, res),
        forall|x: CellAddr| vis.contains(x) ==> !path.contains(x),
        u.finite(),
        forall|j: int| 0 <= j < list.len() ==> u.contains(#[trigger] list[j]),
        forall|c: CellAddr, i: int| 0 <= i < g.dependents_of(c).len() ==> u.contains(#[trigger] g.dependents_of(c)[i]),
    ensures
        match dfs_list(g, u, path, list, k, vis, res) {
            Some((v2, r2)) => search_kept(g, path, vis, res, v2, r2)
                && forall|j: int| k <= j < list.len() ==> v2.contains(#[trigger] list[j]),
            None => true,
        },
    decreases u.difference(path).len(), 1int, list.len() - k,
{
    if k < 0 || k >= list.len() {
        assert(res.take(res.len() as int) =~= res);
    } else {
        lemma_dfs_order(g, u, path, list[k], vis, res);
        match dfs(g, u, path, list[k], vis, res) {
            Some((v1, r1)) => {
                lemma_dfs_list_order(g, u, path, list, k + 1, v1, r1);
                match dfs_list(g, u, path, list, k + 1, v1, r1) {
                    Some((v2, r2)) => {
                        assert(r2.take(res.len() as int) =~= r2.take(r1.len() as int).take(res.len() as int));
                        assert(v1.contains(list[k]));
                        assert forall|j: int| k <= j < list.len() implies v2.contains(#[trigger] list[j]) by {
                            if j == k {
                                assert(v1.contains(list[j]));
                            }
                        }
                    },
                    None => {},
                }
            },
            None => {},
        }
    }
}

proof fn lemma_push_to_set(s: Seq<CellAddr>, x: CellAddr)
    ensures
        s.push(x).to_set() == s.to_set().insert(x),
{
    assert forall|a: CellAddr| s.push(x).to_set().contains(a) <==> s.to_set().insert(x).contains(a) by {
        if s.push(x).contains(a) && a != x {
            let i = choose|i: int| 0 <= i < s.push(x).len() && s.push(x)[i] == a;
            assert(s[i] == a);
        }
        if s.contains(a) {
            let i = choose|i: int| 0 <= i < s.len() && s[i] == a;
            assert(s.push(x)[i] == a);
        }
        if a == x {
            assert(s.push(x)[s.len() as int] == x);
        }
    }
    assert(s.push(x).to_set() =~= s.to_set().insert(x));
}

/// Whether the list holds `c`.
fn contains_addr(v: &Vec<CellAddr>, c: CellAddr) -> (r: bool)
    ensures
        r == v@.contains(c),
{
    let mut i: usize = 0;
    while i < v.len()
        invariant
            i <= v@.len(),
            forall|j: int| 0 <= j < i ==> v@[j] != c,
        decreases v@.len() - i,
    {
        if v[i] == c {
            assert(v@[i as int] == c);
            return true;
        }
        i += 1;
    }
    false
}

impl DependencyGraph {
    /// Every cell of the graph's lists lies in the universe, which is finite.
    proof fn lemma_universe(&self, extra: CellAddr)
        ensures
            self.universe(extra).finite(),
            self.universe(extra).contains(extra),
            forall|c: CellAddr, i: int|
                0 <= i < self.dependents_of(c).len() ==> self.universe(extra).contains(
                    #[trigger] self.dependents_of(c)[i],
                ),
    {
        vstd::seq_lib::seq_to_set_is_finite(all_nodes(self.dependents@));
        assert forall|c: CellAddr, i: int| 0 <= i < self.dependents_of(c).len() implies self.universe(
            extra,
        ).contains(#[trigger] self.dependents_of(c)[i]) by {
            lemma_lookup_in_nodes(self.dependents@, c, i);
        }
    }

    /// The search from `cell`; `false` on a cycle.
    fn dfs(
        &self,
        cell: CellAddr,
        Ghost(u): Ghost<Set<CellAddr>>,
        path: &mut Vec<CellAddr>,
        visited: &mut Vec<CellAddr>,
        result: &mut Vec<CellAddr>,
    ) -> (ok: bool)
        requires
            u.finite(),
            u.contains(cell),
            forall|c: CellAddr, i: int|
                0 <= i < self.dependents_of(c).len() ==> u.contains(#[trigger] self.dependents_of(c)[i]),
        ensures
            match dfs(*self, u, old(path)@.to_set(), cell, old(visited)@.to_set(), old(result)@) {
                Some((v, r)) => ok && final(path)@ == old(path)@ && final(visited)@.to_set() == v
                    && final(result)@ == r,
                None => !ok,
            },
        decreases u.difference(old(path)@.to_set()).len(),
    {
        if contains_addr(path, cell) {
            return false;
        }
        if contains_addr(visited, cell) {
            return true;
        }
        let ghost p0 = path@;
        let ghost v0 = visited@.to_set();
        let ghost r0 = result@;
        proof {
            lemma_push_to_set(p0, cell);
            lemma_difference_shrinks(u, p0.to_set(), cell);
        }
        path.push(cell);
        let deps = self.get_dependents(cell);
        let mut k: usize = 0;
        while k < deps.len()
            invariant
                k <= deps@.len(),
                deps@ == self.dependents_of(cell),
                p0 == old(path)@,
                v0 == old(visited)@.to_set(),
                r0 == old(result)@,
                !p0.to_set().contains(cell),
                !v0.contains(cell),
                path@ == p0.push(cell),
                path@.to_set() == p0.to_set().insert(cell),
                u.finite(),
                u.contains(cell),
                u.difference(path@.to_set()).len() < u.difference(p0.to_set()).len(),
                forall|c: CellAddr, i: int|
                    0 <= i < self.dependents_of(c).len() ==> u.contains(#[trigger] self.dependents_of(c)[i]),
                dfs_list(*self, u, p0.to_set().insert(cell), deps@, 0, v0, r0) == dfs_list(
                    *self,
                    u,
                    p0.to_set().insert(cell),
                    deps@,
                    k as int,
                    visited@.to_set(),
                    result@,
                ),
            decreases deps@.len() - k,
        {
            assert(u.contains(self.dependents_of(cell)[k as int]));
            let ok = self.dfs(deps[k], Ghost(u), path, visited, result);
            if !ok {
                return false;
            }
            k += 1;
        }
        path.pop();
        assert(path@ =~= p0);
        let ghost v1 = visited@.to_set();
        proof { lemma_push_to_set(visited@, cell); }
        visited.push(cell);
        result.push(cell);
        true
    }

    /// A finishing order read backwards is a recalculation order.
    proof fn lemma_reversed_topological(&self, vis: Set<CellAddr>, r: Seq<CellAddr>)
        requires
            finish_order(*self, vis, r),
        ensures
            topological(*self, r.reverse()),
    {
        let o = r.reverse();
        let n = r.len() as int;
        assert(o.len() == n);
        assert forall|i: int, j: int| 0 <= i < j < o.len() implies o[i] != o[j] by {
            assert(o[i] == r[n - 1 - i] && o[j] == r[n - 1 - j]);
        }
        assert forall|j: int, k: int| 0 <= j < o.len() && 0 <= k < self.dependents_of(o[j]).len()
            implies listed_after(o, j, #[trigger] self.dependents_of(o[j])[k]) by {
            let jr = n - 1 - j;
            assert(o[j] == r[jr]);
            assert(0 <= k < self.dependents_of(r[jr]).len());
            let d = self.dependents_of(r[jr])[k];
            assert(self.dependents_of(o[j])[k] == d);
            assert(listed_before(r, jr, d));
            let ir = choose|ir: int| 0 <= ir < jr && r[ir] == d;
            assert(o.len() == n);
            assert(o[n - 1 - ir] == r[ir]);
            assert(j < n - 1 - ir < o.len() && o[n - 1 - ir] == self.dependents_of(o[j])[k]);
        }
    }

    /// The cells to recalculate after `changed` changed, `changed` first: every
    /// cell once, and every cell after all the cells of the order it depends
    /// on, so that recalculating in this order reads no stale value; a cycle
    /// through `changed`'s dependents is a `CycleError`.
    pub fn get_recalc_order(&self, changed: CellAddr) -> (r: Result<Vec<CellAddr>, CellError>)
        ensures
            match r {
                Ok(v) => recalc_order(*self, changed) == Some(v@) && v@.len() > 0 && v@[0] == changed
                    && topological(*self, v@),
                Err(e) => recalc_order(*self, changed) is None && e == CellError::CycleError,
            },
    {
        let ghost u = self.universe(changed);
        proof { self.lemma_universe(changed); }
        let mut path: Vec<CellAddr> = Vec::new();
        let mut visited: Vec<CellAddr> = Vec::new();
        let mut result: Vec<CellAddr> = Vec::new();
        assert(path@.to_set() =~= Set::<CellAddr>::empty());
        assert(visited@.to_set() =~= Set::<CellAddr>::empty());
        assert(result@ =~= Seq::<CellAddr>::empty());
        proof { lemma_dfs_order(*self, u, Set::empty(), changed, Set::empty(), seq![]); }
        if self.dfs(changed, Ghost(u), &mut path, &mut visited, &mut result) {
            let ghost r = result@;
            let n = result.len();
            let mut order: Vec<CellAddr> = Vec::new();
            let mut i: usize = n;
            while i > 0
                invariant
                    i <= n == r.len(),
                    result@ == r,
                    order@.len() == n - i,
                    forall|j: int| 0 <= j < order@.len() ==> order@[j] == r[n - 1 - j],
                decreases i,
            {
                i -= 1;
                order.push(result[i]);
            }
            proof {
                assert(order@ =~= r.reverse());
                self.lemma_reversed_topological(visited@.to_set(), r);
            }
            Ok(order)
        } else {
            Err(CellError::CycleError)
        }
    }
}

proof fn lemma_count_contains(s: Seq<CellAddr>, c: CellAddr)
    ensures
        (count_of(s, c) > 0) == s.contains(c),
    decreases s.len(),
{
    if s.len() > 0 {
        lemma_count_contains(s.drop_last(), c);
        if s.drop_last().contains(c) {
            let i = choose|i: int| 0 <= i < s.drop_last().len() && s.drop_last()[i] == c;
            assert(s[i] == c);
        }
        if s.contains(c) && s.last() != c {
            let i = choose|i: int| 0 <= i < s.len() && s[i] == c;
            assert(s.drop_last()[i] == c);
        }
    }
}

proof fn lemma_without_excludes(s: Seq<CellAddr>, cell: CellAddr)
    ensures
        !without(s, cell).contains(cell),
    decreases s.len(),
{
    if s.len() > 0 {
        lemma_without_excludes(s.drop_last(), cell);
        if s.last() != cell {
            let w = without(s.drop_last(), cell);
            if w.push(s.last()).contains(cell) {
                let i = choose|i: int| 0 <= i < w.push(s.last()).len() && w.push(s.last())[i] == cell;
                assert(w[i] == cell);
            }
        }
    }
}


/// `after` is `before` with `cell`'s dependencies replaced by those of `e`,
/// as `update_deps` leaves it.
pub open spec fn updated(before: DependencyGraph, after: DependencyGraph, cell: CellAddr, e: ExprView) -> bool {
    forall|x: CellAddr| #[trigger]
        after.dependents_of(x) == without(before.dependents_of(x), cell) + Seq::new(
            count_of(deps_of(e), x),
            |i: int| cell,
        )
}

proof fn lemma_without_keeps(s: Seq<CellAddr>, d: CellAddr, c: CellAddr)
    requires
        c != d,
    ensures
        without(s, d).contains(c) <==> s.contains(c),
    decreases s.len(),
{
    if s.len() > 0 {
        lemma_without_keeps(s.drop_last(), d, c);
        let w = without(s.drop_last(), d);
        if s.drop_last().contains(c) {
            let i = choose|i: int| 0 <= i < s.drop_last().len() && s.drop_last()[i] == c;
            assert(s[i] == c);
        }
        if s.contains(c) {
            let i = choose|i: int| 0 <= i < s.len() && s[i] == c;
            if i < s.len() - 1 {
                assert(s.drop_last()[i] == c);
            }
        }
        if s.last() != d {
            if w.push(s.last()).contains(c) {
                let i = choose|i: int| 0 <= i < w.push(s.last()).len() && w.push(s.last())[i] == c;
                if i < w.len() {
                    assert(w[i] == c);
                }
            }
            if w.contains(c) {
                let i = choose|i: int| 0 <= i < w.len() && w[i] == c;
                assert(w.push(s.last())[i] == c);
            }
            if s.last() == c {
                assert(w.push(s.last())[w.len() as int] == c);
            }
        }
    }
}

/// An update of another cell keeps whether `c` depends on a cell.
proof fn lemma_other_update_keeps(before: DependencyGraph, after: DependencyGraph, d: CellAddr, e: ExprView, c: CellAddr, x: CellAddr)
    requires
        updated(before, after, d, e),
        c != d,
    ensures
        after.dependents_of(x).contains(c) <==> before.dependents_of(x).contains(c),
{
    let w = without(before.dependents_of(x), d);
    let rep = Seq::new(count_of(deps_of(e), x), |i: int| d);
    assert(after.dependents_of(x) == w + rep);
    lemma_without_keeps(before.dependents_of(x), d, c);
    if (w + rep).contains(c) {
        let i = choose|i: int| 0 <= i < (w + rep).len() && (w + rep)[i] == c;
        if i < w.len() {
            assert(w[i] == c);
        }
    }
    if w.contains(c) {
        let i = choose|i: int| 0 <= i < w.len() && w[i] == c;
        assert((w + rep)[i] == c);
    }
}

/// After any sequence of updates (graph `gs[i + 1]` is `gs[i]` with the
/// dependencies of `us[i].0` replaced by those of formula `us[i].1`), a cell
/// `x` lists `c` among its dependents exactly when the last formula recorded
/// for `c` refers to `x`: older dependencies of `c` are gone.
pub proof fn lemma_dependents_after_updates(
    gs: Seq<DependencyGraph>,
    us: Seq<(CellAddr, ExprView)>,
    k: int,
    x: CellAddr,
)
    requires
        gs.len() == us.len() + 1,
        forall|i: int| 0 <= i < us.len() ==> updated(#[trigger] gs[i], gs[i + 1], us[i].0, us[i].1),
        0 <= k < us.len(),
        forall|i: int| k < i < us.len() ==> (#[trigger] us[i]).0 != us[k].0,
    ensures
        gs.last().dependents_of(x).contains(us[k].0) <==> deps_of(us[k].1).contains(x),
    decreases us.len() - k,
{
    let c = us[k].0;
    if k == us.len() - 1 {
        assert(updated(gs[k], gs[k + 1], us[k].0, us[k].1));
        lemma_update_deps_links(gs[k], gs[k + 1], c, us[k].1, x);
    } else {
        let n = us.len() - 1;
        let gs2 = gs.drop_last();
        let us2 = us.drop_last();
        assert forall|i: int| 0 <= i < us2.len() implies updated(#[trigger] gs2[i], gs2[i + 1], us2[i].0, us2[i].1) by {
            assert(gs2[i] == gs[i] && gs2[i + 1] == gs[i + 1] && us2[i] == us[i]);
            assert(updated(gs[i], gs[i + 1], us[i].0, us[i].1));
        }
        assert forall|i: int| k < i < us2.len() implies (#[trigger] us2[i]).0 != us2[k].0 by {
            assert(us2[i] == us[i]);
            assert(us[i].0 != us[k].0);
        }
        lemma_dependents_after_updates(gs2, us2, k, x);
        assert(gs2.last() == gs[n]);
        assert(updated(gs[n], gs[n + 1], us[n].0, us[n].1));
        assert(us[n].0 != c);
        lemma_other_update_keeps(gs[n], gs[n + 1], us[n].0, us[n].1, c, x);
    }
}

/// After `cell`'s formula is recorded, a cell lists `cell` among its
/// dependents exactly when the formula refers to it.
pub proof fn lemma_update_deps_links(
    before: DependencyGraph,
    after: DependencyGraph,
    cell: CellAddr,
    e: ExprView,
    c: CellAddr,
)
    requires
        forall|x: CellAddr| #[trigger]
            after.dependents_of(x) == without(before.dependents_of(x), cell) + Seq::new(
                count_of(deps_of(e), x),
                |i: int| cell,
            ),
    ensures
        after.dependents_of(c).contains(cell) <==> deps_of(e).contains(c),
{
    let w = without(before.dependents_of(c), cell);
    let rep = Seq::new(count_of(deps_of(e), c), |i: int| cell);
    lemma_without_excludes(before.dependents_of(c), cell);
    lemma_count_contains(deps_of(e), c);
    assert(after.dependents_of(c) == w + rep);
    if (w + rep).contains(cell) {
        let i = choose|i: int| 0 <= i < (w + rep).len() && (w + rep)[i] == cell;
        if i < w.len() {
            assert(w[i] == cell);
        }
    }
    if deps_of(e).contains(c) {
        assert((w + rep)[w.len() as int] == cell);
    }
}

} // verus!
