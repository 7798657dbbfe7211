//! Reading a whole filter expression: tokens, then postfix order by the
//! shunting-yard method, then a tree.

use vstd::prelude::*;
use crate::command_parser::{self, command_of};
use crate::filter::FilterType;
use crate::filter_expression::{ExprModel, FilterExpression};
use crate::text::{
    alnum_end, alphanumeric, find_char, is_alphanumeric, lemma_alnum_end, lemma_alnum_end_ge,
    lemma_find_char_first, lemma_find_char_ge, substring, equals_str, chars_of, has_char,
};

verus! {

/// One token of an expression.
#[derive(Debug)]
pub enum Token {
    /// A run of alphanumeric characters outside braces: an operator name.
    Operator(String),
    /// The text between `{` and `}`: one command.
    FilterCommand(String),
    LeftParenthesis,
    RightParenthesis,
    /// Anything that cannot stand in an expression.
    Invalid,
}

/// A [`Token`] with its text as a character sequence.
pub enum TokenModel {
    Operator(Seq<char>),
    FilterCommand(Seq<char>),
    LeftParenthesis,
    RightParenthesis,
    Invalid,
}

impl View for Token {
    type V = TokenModel;

    open spec fn view(&self) -> TokenModel {
        match self {
            Token::Operator(s) => TokenModel::Operator(s@),
            Token::FilterCommand(s) => TokenModel::FilterCommand(s@),
            Token::LeftParenthesis => TokenModel::LeftParenthesis,
            Token::RightParenthesis => TokenModel::RightParenthesis,
            Token::Invalid => TokenModel::Invalid,
        }
    }
}

pub open spec fn tokens_model(v: Seq<Token>) -> Seq<TokenModel> {
    v.map_values(|t: Token| t@)
}

pub open spec fn is_whitespace(c: char) -> bool {
    c == ' ' || c == '\t' || c == '\n' || c == '\r'
}

/// The tokens of `s` from index `i` on, with `depth` parentheses open.
pub open spec fn tokens_from(s: Seq<char>, i: int, depth: nat) -> Seq<TokenModel>
    decreases s.len() - i,
    via tokens_from_decreases
{
    if i < 0 || i >= s.len() {
        if depth != 0 {
            seq![TokenModel::Invalid]
        } else {
            seq![]
        }
    } else if s[i] == '{' {
        let e = find_char(s, '}', i + 1);
        let next = if e < s.len() {
            e + 1
        } else {
            e
        };
        seq![TokenModel::FilterCommand(s.subrange(i + 1, e))] + tokens_from(s, next, depth)
    } else if s[i] == '(' {
        if i + 1 < s.len() && s[i + 1] == ')' {
            seq![TokenModel::LeftParenthesis, TokenModel::Invalid] + tokens_from(
                s,
                i + 1,
                depth + 1,
            )
        } else {
            seq![TokenModel::LeftParenthesis] + tokens_from(s, i + 1, depth + 1)
        }
    } else if s[i] == ')' {
        if depth == 0 {
            seq![TokenModel::Invalid] + tokens_from(s, i + 1, depth)
        } else {
            seq![TokenModel::RightParenthesis] + tokens_from(s, i + 1, (depth - 1) as nat)
        }
    } else if is_whitespace(s[i]) {
        tokens_from(s, i + 1, depth)
    } else if alphanumeric(s[i]) {
        let e = alnum_end(s, i);
        seq![TokenModel::Operator(s.subrange(i, e))] + tokens_from(s, e, depth)
    } else {
        seq![TokenModel::Invalid] + tokens_from(s, i + 1, depth)
    }
}

#[via_fn]
proof fn tokens_from_decreases(s: Seq<char>, i: int, depth: nat) {
    if 0 <= i < s.len() {
        lemma_find_char_ge(s, '}', i + 1);
        lemma_alnum_end_ge(s, i + 1);
        if alphanumeric(s[i]) {
            assert(alnum_end(s, i) == alnum_end(s, i + 1));
        }
    }
}

/// The token sequence of `s`.
pub open spec fn tokens_of(s: Seq<char>) -> Seq<TokenModel> {
    tokens_from(s, 0, 0)
}

/// Reads the command that opens at `s[i] == '{'`, up to the next `}` or the
/// end of input. Returns where scanning resumes.
fn tokenize_command(s: &Vec<char>, i: usize, tokens: &mut Vec<Token>) -> (next: usize)
    requires
        i < s@.len(),
        s@[i as int] == '{',
    ensures
        i < next <= s@.len(),
        forall|d: nat|
            tokens_from(s@, i as int, d) == seq![final(tokens)@.last()@] + tokens_from(
                s@,
                next as int,
                d,
            ),
        final(tokens)@ == old(tokens)@.push(final(tokens)@.last()),
{
    let n = s.len();
    let mut j: usize = i + 1;
    while j < n && s[j] != '}'
        invariant
            i + 1 <= j <= n == s@.len(),
            forall|k: int| i + 1 <= k < j ==> s@[k] != '}',
        decreases n - j,
    {
        j += 1;
    }
    proof {
        lemma_find_char_first(s@, '}', i + 1, j as int);
    }
    let content = substring(s, i + 1, j);
    tokens.push(Token::FilterCommand(content));
    if j < n {
        j + 1
    } else {
        j
    }
}

/// Reads an operator name that starts at `s[i]`, or marks `s[i]` invalid when
/// it is not alphanumeric. Returns where scanning resumes.
fn tokenize_logical_operator(s: &Vec<char>, i: usize, tokens: &mut Vec<Token>) -> (next: usize)
    requires
        i < s@.len(),
    ensures
        i < next <= s@.len(),
        final(tokens)@ == old(tokens)@.push(final(tokens)@.last()),
        alphanumeric(s@[i as int]) ==> next == alnum_end(s@, i as int) && final(tokens)@.last()@
            == TokenModel::Operator(s@.subrange(i as int, next as int)),
        !alphanumeric(s@[i as int]) ==> next == i + 1 && final(tokens)@.last()@
            == TokenModel::Invalid,
{
    let n = s.len();
    if is_alphanumeric(s[i]) {
        let mut j: usize = i + 1;
        while j < n && is_alphanumeric(s[j])
            invariant
                i + 1 <= j <= n == s@.len(),
                forall|k: int| i <= k < j ==> alphanumeric(s@[k]),
            decreases n - j,
        {
            j += 1;
        }
        proof {
            lemma_alnum_end(s@, i as int, j as int);
        }
        tokens.push(Token::Operator(substring(s, i, j)));
        j
    } else {
        tokens.push(Token::Invalid);
        i + 1
    }
}

proof fn lemma_model_push(v: Seq<Token>, t: Token)
    ensures
        tokens_model(v.push(t)) == tokens_model(v).push(t@),
{
    assert(tokens_model(v.push(t)) =~= tokens_model(v).push(t@));
}

/// Splits `s` into tokens.
pub fn tokenize(s: &Vec<char>) -> (tokens: Vec<Token>)
    ensures
        tokens_model(tokens@) == tokens_of(s@),
{
    let n = s.len();
    let mut tokens: Vec<Token> = Vec::new();
    let mut i: usize = 0;
    let mut depth: usize = 0;
    assert(tokens_model(tokens@) =~= seq![]);
    assert(tokens_of(s@) =~= tokens_model(tokens@) + tokens_from(s@, 0, 0));
    while i < n
        invariant
            i <= n == s@.len(),
            depth <= i,
            tokens_of(s@) == tokens_model(tokens@) + tokens_from(s@, i as int, depth as nat),
        decreases n - i,
    {
        let ghost before = tokens@;
        let ghost (i0, d0) = (i as int, depth as nat);
        let ghost mut added: Seq<TokenModel> = seq![];
        let c = s[i];
        if c == '{' {
            i = tokenize_command(s, i, &mut tokens);
            proof {
                added = seq![tokens@.last()@];
                lemma_model_push(before, tokens@.last());
            }
        } else if c == '(' {
            tokens.push(Token::LeftParenthesis);
            proof {
                lemma_model_push(before, Token::LeftParenthesis);
                added = seq![TokenModel::LeftParenthesis];
            }
            if i + 1 < n && s[i + 1] == ')' {
                let ghost mid = tokens@;
                tokens.push(Token::Invalid);
                proof {
                    lemma_model_push(mid, Token::Invalid);
                    added = seq![TokenModel::LeftParenthesis, TokenModel::Invalid];
                }
            }
            i += 1;
            depth += 1;
        } else if c == ')' {
            if depth == 0 {
                tokens.push(Token::Invalid);
                proof {
                    lemma_model_push(before, Token::Invalid);
                    added = seq![TokenModel::Invalid];
                }
            } else {
                tokens.push(Token::RightParenthesis);
                proof {
                    lemma_model_push(before, Token::RightParenthesis);
                    added = seq![TokenModel::RightParenthesis];
                }
                depth -= 1;
            }
            i += 1;
        } else if c == ' ' || c == '\t' || c == '\n' || c == '\r' {
            i += 1;
        } else {
            i = tokenize_logical_operator(s, i, &mut tokens);
            proof {
                added = seq![tokens@.last()@];
                lemma_model_push(before, tokens@.last());
            }
        }
        proof {
            assert(tokens_model(tokens@) =~= tokens_model(before) + added);
            assert(tokens_from(s@, i0, d0) =~= added + tokens_from(s@, i as int, depth as nat));
            assert(tokens_of(s@) =~= tokens_model(tokens@) + tokens_from(
                s@,
                i as int,
                depth as nat,
            ));
        }
    }
    let ghost before = tokens@;
    if depth != 0 {
        tokens.push(Token::Invalid);
        proof {
            lemma_model_push(before, Token::Invalid);
        }
    }
    assert(tokens_of(s@) =~= tokens_model(tokens@));
    tokens
}

/// Binding strength of an operator name: `not` binds tightest, then `and` and
/// `nand`, then `or`, `nor`, `xor` and `xnor`; unknown names bind least.
pub open spec fn precedence(op: Seq<char>) -> int {
    if op == "not"@ {
        3
    } else if op == "and"@ || op == "nand"@ {
        2
    } else if op == "or"@ || op == "nor"@ || op == "xor"@ || op == "xnor"@ {
        1
    } else {
        0
    }
}

/// The binding strength of `operator` (see [`precedence`]).
pub fn logical_precedence(operator: &String) -> (r: i32)
    ensures
        r == precedence(operator@),
{
    if equals_str(operator, "not") {
        3
    } else if equals_str(operator, "and") || equals_str(operator, "nand") {
        2
    } else if equals_str(operator, "or") || equals_str(operator, "nor") || equals_str(
        operator,
        "xor",
    ) || equals_str(operator, "xnor") {
        1
    } else {
        0
    }
}

/// Moves operators from the stack to the output up to the nearest open
/// parenthesis, which is dropped.
pub open spec fn pop_to_left(out: Seq<TokenModel>, ops: Seq<TokenModel>) -> (Seq<TokenModel>, Seq<TokenModel>)
    decreases ops.len(),
{
    if ops.len() == 0 {
        (out, ops)
    } else if ops.last() == TokenModel::LeftParenthesis {
        (out, ops.drop_last())
    } else {
        pop_to_left(out.push(ops.last()), ops.drop_last())
    }
}

/// The top of the stack is an operator that binds at least as tightly as `p`.
pub open spec fn top_binds_at_least(ops: Seq<TokenModel>, p: int) -> bool {
    ops.len() > 0 && match ops.last() {
        TokenModel::Operator(top) => p <= precedence(top),
        _ => false,
    }
}

/// Moves operators from the stack to the output while they bind at least as
/// tightly as an incoming operator of strength `p`.
pub open spec fn pop_higher(out: Seq<TokenModel>, ops: Seq<TokenModel>, p: int) -> (Seq<TokenModel>, Seq<TokenModel>)
    decreases ops.len(),
{
    if top_binds_at_least(ops, p) {
        pop_higher(out.push(ops.last()), ops.drop_last(), p)
    } else {
        (out, ops)
    }
}

/// Moves what is left on the stack to the output, top first.
pub open spec fn flush(out: Seq<TokenModel>, ops: Seq<TokenModel>) -> Seq<TokenModel>
    decreases ops.len(),
{
    if ops.len() == 0 {
        out
    } else {
        flush(out.push(ops.last()), ops.drop_last())
    }
}

/// The shunting-yard pass over `toks` from index `i` on, with output `out`
/// and operator stack `ops` so far.
pub open spec fn postfix_from(
    toks: Seq<TokenModel>,
    i: int,
    out: Seq<TokenModel>,
    ops: Seq<TokenModel>,
) -> Seq<TokenModel>
    decreases toks.len() - i,
{
    if i < 0 || i >= toks.len() {
        flush(out, ops)
    } else {
        match toks[i] {
            TokenModel::LeftParenthesis => postfix_from(toks, i + 1, out, ops.push(toks[i])),
            TokenModel::RightParenthesis => {
                let (o, s) = pop_to_left(out, ops);
                postfix_from(toks, i + 1, o, s)
            },
            TokenModel::Operator(op) => {
                let (o, s) = pop_higher(out, ops, precedence(op));
                postfix_from(toks, i + 1, o, s.push(toks[i]))
            },
            _ => postfix_from(toks, i + 1, out.push(toks[i]), ops),
        }
    }
}

/// `toks` in postfix order.
pub open spec fn to_postfix(toks: Seq<TokenModel>) -> Seq<TokenModel> {
    postfix_from(toks, 0, seq![], seq![])
}

proof fn lemma_model_drop_last(v: Seq<Token>)
    requires
        v.len() > 0,
    ensures
        tokens_model(v.drop_last()) == tokens_model(v).drop_last(),
        tokens_model(v).last() == v.last()@,
{
    assert(tokens_model(v.drop_last()) =~= tokens_model(v).drop_last());
}

fn clone_token(t: &Token) -> (r: Token)
    ensures
        r@ == t@,
{
    match t {
        Token::Operator(s) => Token::Operator(s.clone()),
        Token::FilterCommand(s) => Token::FilterCommand(s.clone()),
        Token::LeftParenthesis => Token::LeftParenthesis,
        Token::RightParenthesis => Token::RightParenthesis,
        Token::Invalid => Token::Invalid,
    }
}

/// Moves the top of `ops` onto `output`.
fn move_top(output: &mut Vec<Token>, ops: &mut Vec<Token>)
    requires
        old(ops)@.len() > 0,
    ensures
        tokens_model(final(output)@) == tokens_model(old(output)@).push(tokens_model(old(ops)@).last()),
        tokens_model(final(ops)@) == tokens_model(old(ops)@).drop_last(),
        final(ops)@.len() == old(ops)@.len() - 1,
{
    proof {
        lemma_model_drop_last(ops@);
    }
    match ops.pop() {
        Some(t) => {
            proof {
                lemma_model_push(output@, t);
            }
            output.push(t);
        },
        None => {},
    }
}

fn top_is_left(ops: &Vec<Token>) -> (r: bool)
    requires
        ops@.len() > 0,
    ensures
        r == (tokens_model(ops@).last() == TokenModel::LeftParenthesis),
{
    proof {
        lemma_model_drop_last(ops@);
    }
    match &ops[ops.len() - 1] {
        Token::LeftParenthesis => true,
        _ => false,
    }
}

fn top_binds(ops: &Vec<Token>, p: i32) -> (r: bool)
    ensures
        r == top_binds_at_least(tokens_model(ops@), p as int),
{
    if ops.len() == 0 {
        return false;
    }
    proof {
        lemma_model_drop_last(ops@);
    }
    match &ops[ops.len() - 1] {
        Token::Operator(top) => p <= logical_precedence(top),
        _ => false,
    }
}

/// Reorders `tokens` from infix to postfix order by the shunting-yard method.
pub fn infix_to_postfix(tokens: Vec<Token>) -> (output: Vec<Token>)
    ensures
        tokens_model(output@) == to_postfix(tokens_model(tokens@)),
{
    let ghost toks = tokens_model(tokens@);
    let mut output: Vec<Token> = Vec::new();
    let mut ops: Vec<Token> = Vec::new();
    let mut i: usize = 0;
    assert(tokens_model(output@) =~= seq![]);
    assert(tokens_model(ops@) =~= seq![]);
    while i < tokens.len()
        invariant
            i <= tokens@.len(),
            toks == tokens_model(tokens@),
            to_postfix(toks) == postfix_from(
                toks,
                i as int,
                tokens_model(output@),
                tokens_model(ops@),
            ),
        decreases tokens@.len() - i,
    {
        let token = clone_token(&tokens[i]);
        assert(toks[i as int] == token@);
        match token {
            Token::LeftParenthesis => {
                proof {
                    lemma_model_push(ops@, token);
                }
                ops.push(token);
            },
            Token::RightParenthesis => {
                let ghost (o0, s0) = (tokens_model(output@), tokens_model(ops@));
                while ops.len() > 0 && !top_is_left(&ops)
                    invariant
                        pop_to_left(o0, s0) == pop_to_left(tokens_model(output@), tokens_model(ops@)),
                    decreases ops@.len(),
                {
                    move_top(&mut output, &mut ops);
                }
                if ops.len() > 0 {
                    proof {
                        lemma_model_drop_last(ops@);
                    }
                    ops.pop();
                }
            },
            Token::Operator(op) => {
                let p = logical_precedence(&op);
                let ghost (o0, s0) = (tokens_model(output@), tokens_model(ops@));
                while top_binds(&ops, p)
                    invariant
                        pop_higher(o0, s0, p as int) == pop_higher(
                            tokens_model(output@),
                            tokens_model(ops@),
                            p as int,
                        ),
                    decreases ops@.len(),
                {
                    move_top(&mut output, &mut ops);
                }
                let t = Token::Operator(op);
                proof {
                    lemma_model_push(ops@, t);
                }
                ops.push(t);
            },
            _ => {
                proof {
                    lemma_model_push(output@, token);
                }
                output.push(token);
            },
        }
        i += 1;
    }
    while ops.len() > 0
        invariant
            to_postfix(toks) == flush(tokens_model(output@), tokens_model(ops@)),
        decreases ops@.len(),
    {
        move_top(&mut output, &mut ops);
    }
    output
}

/// The tree that a binary operator named `op` makes of `a` and `b`.
pub open spec fn combine(op: Seq<char>, a: ExprModel, b: ExprModel) -> Option<ExprModel> {
    if op == "and"@ {
        Some(ExprModel::And(Box::new(a), Box::new(b)))
    } else if op == "or"@ {
        Some(ExprModel::Or(Box::new(a), Box::new(b)))
    } else if op == "xor"@ {
        Some(ExprModel::Xor(Box::new(a), Box::new(b)))
    } else if op == "nor"@ {
        Some(ExprModel::Nor(Box::new(a), Box::new(b)))
    } else if op == "nand"@ {
        Some(ExprModel::Nand(Box::new(a), Box::new(b)))
    } else if op == "xnor"@ {
        Some(ExprModel::Xnor(Box::new(a), Box::new(b)))
    } else {
        None
    }
}

/// Builds a tree from postfix tokens `toks`, from index `i` on, with the
/// partial trees `stack`. Fails on an invalid token, a command that does not
/// read, an operator without enough operands or with an unknown name, and
/// unless exactly one tree remains.
pub open spec fn build_from(
    toks: Seq<TokenModel>,
    i: int,
    stack: Seq<ExprModel>,
    ft: FilterType,
) -> Option<ExprModel>
    decreases toks.len() - i,
{
    if i < 0 || i >= toks.len() {
        if stack.len() == 1 {
            Some(stack[0])
        } else {
            None
        }
    } else {
        match toks[i] {
            TokenModel::FilterCommand(c) => match command_of(ft, c) {
                Some(m) => build_from(toks, i + 1, stack.push(ExprModel::SingleCommand(m)), ft),
                None => None,
            },
            TokenModel::Operator(op) => if op == "not"@ {
                if stack.len() >= 1 {
                    build_from(
                        toks,
                        i + 1,
                        stack.drop_last().push(ExprModel::Not(Box::new(stack.last()))),
                        ft,
                    )
                } else {
                    None
                }
            } else if stack.len() >= 2 {
                match combine(op, stack[stack.len() - 2], stack[stack.len() - 1]) {
                    Some(e) => build_from(
                        toks,
                        i + 1,
                        stack.subrange(0, stack.len() - 2).push(e),
                        ft,
                    ),
                    None => None,
                }
            } else {
                None
            },
            TokenModel::Invalid => None,
            _ => build_from(toks, i + 1, stack, ft),
        }
    }
}

/// The tree that postfix tokens `toks` build for a filter of type `ft`.
pub open spec fn tree_of(ft: FilterType, toks: Seq<TokenModel>) -> Option<ExprModel> {
    build_from(toks, 0, seq![], ft)
}

/// The tree that `s` spells when read as it stands.
pub open spec fn tokenized_tree(ft: FilterType, s: Seq<char>) -> Option<ExprModel> {
    tree_of(ft, to_postfix(tokens_of(s)))
}

/// The tree that `s` spells: read as it stands, or, failing that and when `s`
/// holds no brace, read again wrapped in braces as a single command.
pub open spec fn expression_of(ft: FilterType, s: Seq<char>) -> Option<ExprModel> {
    match tokenized_tree(ft, s) {
        Some(e) => Some(e),
        None => if !s.contains('{') && !s.contains('}') {
            tokenized_tree(ft, seq!['{'] + s + seq!['}'])
        } else {
            None
        },
    }
}

/// `r` is the tree `m`.
pub open spec fn expr_parsed_as(r: Option<FilterExpression>, m: Option<ExprModel>) -> bool {
    match r {
        Some(e) => m == Some(e.model()),
        None => m.is_none(),
    }
}

pub open spec fn stack_model(v: Seq<FilterExpression>) -> Seq<ExprModel> {
    v.map_values(|e: FilterExpression| e.model())
}

proof fn lemma_stack_push(v: Seq<FilterExpression>, e: FilterExpression)
    ensures
        stack_model(v.push(e)) == stack_model(v).push(e.model()),
{
    assert(stack_model(v.push(e)) =~= stack_model(v).push(e.model()));
}

proof fn lemma_stack_drop_last(v: Seq<FilterExpression>)
    requires
        v.len() > 0,
    ensures
        stack_model(v.drop_last()) == stack_model(v).drop_last(),
        stack_model(v).last() == v.last().model(),
{
    assert(stack_model(v.drop_last()) =~= stack_model(v).drop_last());
}

fn combine_exec(op: &String, a: FilterExpression, b: FilterExpression) -> (r: Option<FilterExpression>)
    ensures
        match r {
            Some(e) => combine(op@, a.model(), b.model()) == Some(e.model()),
            None => combine(op@, a.model(), b.model()).is_none(),
        },
{
    if equals_str(op, "and") {
        Some(FilterExpression::And(Box::new(a), Box::new(b)))
    } else if equals_str(op, "or") {
        Some(FilterExpression::Or(Box::new(a), Box::new(b)))
    } else if equals_str(op, "xor") {
        Some(FilterExpression::Xor(Box::new(a), Box::new(b)))
    } else if equals_str(op, "nor") {
        Some(FilterExpression::Nor(Box::new(a), Box::new(b)))
    } else if equals_str(op, "nand") {
        Some(FilterExpression::Nand(Box::new(a), Box::new(b)))
    } else if equals_str(op, "xnor") {
        Some(FilterExpression::Xnor(Box::new(a), Box::new(b)))
    } else {
        None
    }
}

/// Builds the expression tree from postfix `tokens`.
pub fn expression_from_tokenized_postfix(tokens: Vec<Token>, filter_type: &FilterType) -> (r: Option<FilterExpression>)
    ensures
        expr_parsed_as(r, tree_of(*filter_type, tokens_model(tokens@))),
{
    let ghost toks = tokens_model(tokens@);
    let ghost ft = *filter_type;
    let mut stack: Vec<FilterExpression> = Vec::new();
    let mut i: usize = 0;
    assert(stack_model(stack@) =~= seq![]);
    while i < tokens.len()
        invariant
            i <= tokens@.len(),
            toks == tokens_model(tokens@),
            ft == *filter_type,
            tree_of(ft, toks) == build_from(toks, i as int, stack_model(stack@), ft),
        decreases tokens@.len() - i,
    {
        let ghost sm = stack_model(stack@);
        assert(toks[i as int] == tokens@[i as int]@);
        match &tokens[i] {
            Token::FilterCommand(text) => {
                match command_parser::parse(filter_type, text.clone()) {
                    Some(cmd) => {
                        let e = FilterExpression::SingleCommand(cmd);
                        proof {
                            lemma_stack_push(stack@, e);
                        }
                        stack.push(e);
                    },
                    None => {
                        return None;
                    },
                }
            },
            Token::Operator(op) => {
                if equals_str(op, "not") {
                    proof {
                        if stack@.len() > 0 {
                            lemma_stack_drop_last(stack@);
                        }
                    }
                    match stack.pop() {
                        Some(a) => {
                            let e = FilterExpression::Not(Box::new(a));
                            proof {
                                lemma_stack_push(stack@, e);
                            }
                            stack.push(e);
                        },
                        None => {
                            return None;
                        },
                    }
                } else {
                    if stack.len() < 2 {
                        return None;
                    }
                    let ghost s0 = stack@;
                    proof {
                        lemma_stack_drop_last(s0);
                        lemma_stack_drop_last(s0.drop_last());
                    }
                    let b = stack.pop().unwrap();
                    let a = stack.pop().unwrap();
                    assert(stack_model(stack@) =~= sm.subrange(0, sm.len() - 2));
                    match combine_exec(op, a, b) {
                        Some(e) => {
                            proof {
                                lemma_stack_push(stack@, e);
                            }
                            stack.push(e);
                        },
                        None => {
                            return None;
                        },
                    }
                }
            },
            Token::Invalid => {
                return None;
            },
            _ => {},
        }
        i += 1;
    }
    if stack.len() == 1 {
        proof {
            lemma_stack_drop_last(stack@);
        }
        stack.pop()
    } else {
        None
    }
}

/// Reads `input` as it stands.
fn parse_tokenized(filter_type: &FilterType, input: &str) -> (r: Option<FilterExpression>)
    ensures
        expr_parsed_as(r, tokenized_tree(*filter_type, input@)),
{
    let chars = chars_of(input);
    let tokens = tokenize(&chars);
    let postfix = infix_to_postfix(tokens);
    expression_from_tokenized_postfix(postfix, filter_type)
}

/// Reads `input` as a filter expression for a filter of type `filter_type`. A
/// brace-free input that does not read as it stands is read again as a single
/// command wrapped in braces.
pub fn parse(filter_type: &FilterType, input: &str) -> (r: Option<FilterExpression>)
    ensures
        expr_parsed_as(r, expression_of(*filter_type, input@)),
{
    let result = parse_tokenized(filter_type, input);
    if result.is_none() {
        let chars = chars_of(input);
        if !has_char(&chars, '{') && !has_char(&chars, '}') {
            let wrapped = String::from_str("{").concat(input).concat("}");
            proof {
                reveal_strlit("{");
                reveal_strlit("}");
                assert(wrapped@ =~= seq!['{'] + input@ + seq!['}']);
            }
            return parse_tokenized(filter_type, wrapped.as_str());
        }
    }
    result
}

/// No token of `q` is a command.
pub open spec fn no_commands(q: Seq<TokenModel>) -> bool {
    forall|j: int| 0 <= j < q.len() ==> !(#[trigger] q[j] is FilterCommand)
}

proof fn lemma_no_commands_concat(a: Seq<TokenModel>, b: Seq<TokenModel>)
    requires
        no_commands(a),
        no_commands(b),
    ensures
        no_commands(a + b),
{
    assert forall|j: int| 0 <= j < (a + b).len() implies !(#[trigger] (a + b)[j] is FilterCommand) by {
        if j < a.len() {
            assert((a + b)[j] == a[j]);
        } else {
            assert((a + b)[j] == b[j - a.len()]);
        }
    }
}

proof fn lemma_tokens_no_commands(s: Seq<char>, i: int, d: nat)
    requires
        !s.contains('{'),
        0 <= i <= s.len(),
    ensures
        no_commands(tokens_from(s, i, d)),
    decreases s.len() - i,
{
    if i < s.len() {
        assert(s[i] != '{');
        if s[i] == '(' {
            lemma_tokens_no_commands(s, i + 1, d + 1);
            let head = if i + 1 < s.len() && s[i + 1] == ')' {
                seq![TokenModel::LeftParenthesis, TokenModel::Invalid]
            } else {
                seq![TokenModel::LeftParenthesis]
            };
            lemma_no_commands_concat(head, tokens_from(s, i + 1, d + 1));
        } else if s[i] == ')' {
            let d2: nat = if d == 0 {
                d
            } else {
                (d - 1) as nat
            };
            lemma_tokens_no_commands(s, i + 1, d2);
            let head = if d == 0 {
                seq![TokenModel::Invalid]
            } else {
                seq![TokenModel::RightParenthesis]
            };
            lemma_no_commands_concat(head, tokens_from(s, i + 1, d2));
        } else if is_whitespace(s[i]) {
            lemma_tokens_no_commands(s, i + 1, d);
        } else if alphanumeric(s[i]) {
            let e = alnum_end(s, i);
            lemma_alnum_end_ge(s, i + 1);
            assert(e == alnum_end(s, i + 1));
            lemma_tokens_no_commands(s, e, d);
            lemma_no_commands_concat(
                seq![TokenModel::Operator(s.subrange(i, e))],
                tokens_from(s, e, d),
            );
        } else {
            lemma_tokens_no_commands(s, i + 1, d);
            lemma_no_commands_concat(seq![TokenModel::Invalid], tokens_from(s, i + 1, d));
        }
    }
}

proof fn lemma_pop_to_left_no_commands(out: Seq<TokenModel>, ops: Seq<TokenModel>)
    requires
        no_commands(out),
        no_commands(ops),
    ensures
        no_commands(pop_to_left(out, ops).0),
        no_commands(pop_to_left(out, ops).1),
    decreases ops.len(),
{
    if ops.len() > 0 {
        assert(no_commands(ops.drop_last()));
        assert(no_commands(out.push(ops.last())));
        if ops.last() != TokenModel::LeftParenthesis {
            lemma_pop_to_left_no_commands(out.push(ops.last()), ops.drop_last());
        }
    }
}

proof fn lemma_pop_higher_no_commands(out: Seq<TokenModel>, ops: Seq<TokenModel>, p: int)
    requires
        no_commands(out),
        no_commands(ops),
    ensures
        no_commands(pop_higher(out, ops, p).0),
        no_commands(pop_higher(out, ops, p).1),
    decreases ops.len(),
{
    if top_binds_at_least(ops, p) {
        assert(no_commands(ops.drop_last()));
        assert(no_commands(out.push(ops.last())));
        lemma_pop_higher_no_commands(out.push(ops.last()), ops.drop_last(), p);
    }
}

proof fn lemma_flush_no_commands(out: Seq<TokenModel>, ops: Seq<TokenModel>)
    requires
        no_commands(out),
        no_commands(ops),
    ensures
        no_commands(flush(out, ops)),
    decreases ops.len(),
{
    if ops.len() > 0 {
        assert(no_commands(ops.drop_last()));
        assert(no_commands(out.push(ops.last())));
        lemma_flush_no_commands(out.push(ops.last()), ops.drop_last());
    }
}

proof fn lemma_postfix_no_commands(
    toks: Seq<TokenModel>,
    i: int,
    out: Seq<TokenModel>,
    ops: Seq<TokenModel>,
)
    requires
        0 <= i,
        no_commands(toks),
        no_commands(out),
        no_commands(ops),
    ensures
        no_commands(postfix_from(toks, i, out, ops)),
    decreases toks.len() - i,
{
    if i >= toks.len() {
        lemma_flush_no_commands(out, ops);
    } else {
        let t = toks[i];
        assert(!(t is FilterCommand));
        assert(no_commands(ops.push(t)));
        assert(no_commands(out.push(t)));
        match t {
            TokenModel::LeftParenthesis => {
                lemma_postfix_no_commands(toks, i + 1, out, ops.push(t));
            },
            TokenModel::RightParenthesis => {
                lemma_pop_to_left_no_commands(out, ops);
                let (o, s) = pop_to_left(out, ops);
                lemma_postfix_no_commands(toks, i + 1, o, s);
            },
            TokenModel::Operator(op) => {
                lemma_pop_higher_no_commands(out, ops, precedence(op));
                let (o, s) = pop_higher(out, ops, precedence(op));
                assert(no_commands(s.push(t)));
                lemma_postfix_no_commands(toks, i + 1, o, s.push(t));
            },
            _ => {
                lemma_postfix_no_commands(toks, i + 1, out.push(t), ops);
            },
        }
    }
}

proof fn lemma_build_without_commands(toks: Seq<TokenModel>, i: int, ft: FilterType)
    requires
        0 <= i,
        no_commands(toks),
    ensures
        build_from(toks, i, seq![], ft).is_none(),
    decreases toks.len() - i,
{
    if i < toks.len() {
        assert(!(toks[i] is FilterCommand));
        lemma_build_without_commands(toks, i + 1, ft);
    }
}

/// A brace-free input reads exactly as the same input wrapped in braces: both
/// fail, or both give the same tree.
pub proof fn lemma_brace_free_reads_as_wrapped(ft: FilterType, s: Seq<char>)
    requires
        !s.contains('{'),
        !s.contains('}'),
    ensures
        expression_of(ft, s) == expression_of(ft, seq!['{'] + s + seq!['}']),
{
    lemma_tokens_no_commands(s, 0, 0);
    lemma_postfix_no_commands(tokens_of(s), 0, seq![], seq![]);
    lemma_build_without_commands(to_postfix(tokens_of(s)), 0, ft);
    let w = seq!['{'] + s + seq!['}'];
    assert(w[0] == '{');
}

} // verus!
