//! The recursive-descent parser: consumes a token sequence through a
//! single forward cursor and builds a tree of nodes, following the
//! grammar
//!
//! ```text
//! document := '{' member (',' member)* '}'
//! member   := string ':' value
//! value    := string | number | boolean | null | document | array
//! array    := '[' value (',' value)* ']'
//! ```
//!
//! The tree can be rendered back to text in a compact single-line form
//! and in an indented multi-line form.

use crate::number::is_number_lexeme;
use crate::text::push_char;
use crate::tokenizer::{
    has_at, is_ws_char, keyword_false, keyword_null, keyword_true, lemma_has_at_split,
    lemma_tok_false_at, lemma_tok_null_at, lemma_tok_number_at, lemma_tok_string_at,
    lemma_tok_true_at, lemma_tokenize_tokens_wf, prepend_token, prepend_tokens, spec_tokenize,
    tok_models, wf_string_text, wf_token, Token, TokenModel, TokenizeError,
};
use vstd::prelude::*;
use vstd::string::StringExecFns;

verus! {

/// The ways parsing can fail.
#[derive(Debug, PartialEq, Eq, Structural, Clone, Copy)]
pub enum ParseError {
    NotAString,
    NotANumber,
    NotABoolean,
    NotANull,
    InvalidToken,
    UnexpectedToken,
}

/// A document: the ordered members of a top-level or nested object.
pub struct ObjectListNode {
    pub value: Vec<Node>,
}

/// One key-value member of an object; the key is always a string node.
pub struct ObjectNode {
    pub key: Box<Node>,
    pub value: Box<Node>,
}

/// An array: an ordered sequence of value nodes.
pub struct ArrayNode {
    pub value: Vec<Node>,
}

/// A string leaf, holding the literal text verbatim, quotes included.
pub struct StringNode {
    pub value: String,
}

/// A number leaf, holding the matched lexeme verbatim.
pub struct NumberNode {
    pub value: String,
}

/// A boolean leaf, holding the matched keyword text.
pub struct BoolNode {
    pub value: String,
}

/// A null leaf, holding the keyword text `null`.
pub struct NullNode {
    pub value: String,
}

/// One node of the abstract syntax tree: a closed tagged union over the
/// node kinds, matched exhaustively by the two render functions.
pub enum Node {
    Document(ObjectListNode),
    Member(ObjectNode),
    Array(ArrayNode),
    StringValue(StringNode),
    NumberValue(NumberNode),
    BooleanValue(BoolNode),
    NullValue(NullNode),
}

/// The mathematical model of a [`Node`]: the same tree shape with all
/// text as character sequences.
pub enum NodeModel {
    Document(Seq<NodeModel>),
    Member(Box<NodeModel>, Box<NodeModel>),
    Array(Seq<NodeModel>),
    StringValue(Seq<char>),
    NumberValue(Seq<char>),
    BooleanValue(Seq<char>),
    NullValue(Seq<char>),
}

/// The model of a node.
pub open spec fn node_model(n: Node) -> NodeModel
    decreases n, 0int,
{
    match n {
        Node::Document(d) => NodeModel::Document(node_models(d.value@, 0)),
        Node::Member(m) => NodeModel::Member(
            Box::new(node_model(*m.key)),
            Box::new(node_model(*m.value)),
        ),
        Node::Array(a) => NodeModel::Array(node_models(a.value@, 0)),
        Node::StringValue(s) => NodeModel::StringValue(s.value@),
        Node::NumberValue(s) => NodeModel::NumberValue(s.value@),
        Node::BooleanValue(s) => NodeModel::BooleanValue(s.value@),
        Node::NullValue(s) => NodeModel::NullValue(s.value@),
    }
}

/// The models of the nodes of `s` from position `i` on, in order.
pub open spec fn node_models(s: Seq<Node>, i: int) -> Seq<NodeModel>
    decreases s, s.len() - i,
{
    if 0 <= i < s.len() {
        seq![node_model(s[i])] + node_models(s, i + 1)
    } else {
        Seq::empty()
    }
}

impl View for Node {
    type V = NodeModel;

    open spec fn view(&self) -> NodeModel {
        node_model(*self)
    }
}

/// The model sequence of `s` from `i` on has one model per node, in
/// order.
proof fn lemma_node_models_index(s: Seq<Node>, i: int)
    requires
        0 <= i <= s.len(),
    ensures
        node_models(s, i).len() == s.len() - i,
        forall|j: int|
            0 <= j < s.len() - i ==> node_models(s, i)[j] == node_model(s[i + j]),
    decreases s.len() - i,
{
    if i < s.len() {
        lemma_node_models_index(s, i + 1);
    }
}

/// Appending one node appends its model.
proof fn lemma_node_models_push(s: Seq<Node>, n: Node, i: int)
    requires
        0 <= i <= s.len(),
    ensures
        node_models(s.push(n), i) == node_models(s, i).push(node_model(n)),
    decreases s.len() - i,
{
    if i < s.len() {
        lemma_node_models_push(s, n, i + 1);
        assert(s.push(n)[i] == s[i]);
        assert(seq![node_model(s[i])] + node_models(s, i + 1).push(node_model(n))
            =~= (seq![node_model(s[i])] + node_models(s, i + 1)).push(node_model(n)));
    } else {
        assert(node_models(s.push(n), i) == seq![node_model(s.push(n)[i])] + node_models(
            s.push(n),
            i + 1,
        ));
        assert(node_models(s.push(n), i) =~= node_models(s, i).push(node_model(n)));
    }
}

/// The result of parsing a string token at position `i`: a string leaf
/// and the advanced cursor, or `NotAString` with the cursor left at
/// `i`.
pub open spec fn spec_parse_string(ts: Seq<TokenModel>, i: int) -> Result<
    (NodeModel, int),
    (ParseError, int),
> {
    if 0 <= i < ts.len() && ts[i] is StringLiteral {
        Ok((NodeModel::StringValue(ts[i]->StringLiteral_0), i + 1))
    } else {
        Err((ParseError::NotAString, i))
    }
}

/// The result of parsing a number token at position `i`: a number leaf
/// and the advanced cursor, or `NotANumber` with the cursor left at
/// `i`.
pub open spec fn spec_parse_number(ts: Seq<TokenModel>, i: int) -> Result<
    (NodeModel, int),
    (ParseError, int),
> {
    if 0 <= i < ts.len() && ts[i] is NumberLiteral {
        Ok((NodeModel::NumberValue(ts[i]->NumberLiteral_0), i + 1))
    } else {
        Err((ParseError::NotANumber, i))
    }
}

/// The result of parsing a boolean token at position `i`: a boolean
/// leaf and the advanced cursor, or `NotABoolean` with the cursor left
/// at `i`.
pub open spec fn spec_parse_bool(ts: Seq<TokenModel>, i: int) -> Result<
    (NodeModel, int),
    (ParseError, int),
> {
    if 0 <= i < ts.len() && ts[i] is BooleanLiteral {
        Ok((NodeModel::BooleanValue(ts[i]->BooleanLiteral_0), i + 1))
    } else {
        Err((ParseError::NotABoolean, i))
    }
}

/// The text stored in a null leaf.
pub open spec fn null_text() -> Seq<char> {
    seq!['n', 'u', 'l', 'l']
}

/// The result of parsing a null token at position `i`: a null leaf and
/// the advanced cursor, or `NotANull` with the cursor left at `i`.
pub open spec fn spec_parse_null(ts: Seq<TokenModel>, i: int) -> Result<
    (NodeModel, int),
    (ParseError, int),
> {
    if 0 <= i < ts.len() && ts[i] is NullLiteral {
        Ok((NodeModel::NullValue(null_text()), i + 1))
    } else {
        Err((ParseError::NotANull, i))
    }
}

/// The result of parsing a document at position `i`: `{`, one or more
/// members separated by commas, `}`. Every failure carries the cursor
/// where parsing stopped: a missing opening brace is `UnexpectedToken`
/// at `i`, a missing closing brace is `UnexpectedToken` right after
/// the members, and member errors pass through with their own cursor.
pub open spec fn spec_parse_objects(ts: Seq<TokenModel>, i: int) -> Result<
    (NodeModel, int),
    (ParseError, int),
>
    decreases ts.len() - i, 0int,
{
    if !(0 <= i < ts.len() && ts[i] is LeftBrace) {
        Err((ParseError::UnexpectedToken, i))
    } else {
        match spec_parse_members(ts, i + 1) {
            Ok((ms, j)) => {
                if 0 <= j < ts.len() && ts[j] is RightBrace {
                    Ok((NodeModel::Document(ms), j + 1))
                } else {
                    Err((ParseError::UnexpectedToken, j))
                }
            },
            Err(e) => Err(e),
        }
    }
}

/// The result of parsing one or more comma-separated members from
/// position `i`: the member models in order and the cursor after the
/// last member (commas consumed, the following token left in place).
pub open spec fn spec_parse_members(ts: Seq<TokenModel>, i: int) -> Result<
    (Seq<NodeModel>, int),
    (ParseError, int),
>
    decreases ts.len() - i, 2int,
{
    match spec_parse_member(ts, i) {
        Ok((m, j)) => {
            if 0 <= j < ts.len() && ts[j] is Comma {
                // A successful parse always advances the cursor, so this
                // guard cannot fail; it gives the termination check the
                // bound it needs for the recursive call.
                if i <= j {
                    match spec_parse_members(ts, j + 1) {
                        Ok((ms, k)) => Ok((seq![m] + ms, k)),
                        Err(e) => Err(e),
                    }
                } else {
                    Err((ParseError::UnexpectedToken, j))
                }
            } else {
                Ok((seq![m], j))
            }
        },
        Err(e) => Err(e),
    }
}

/// The result of parsing one member at position `i`: a string key, a
/// colon, and a value. A non-string key is `NotAString` at `i`; a
/// missing colon is `UnexpectedToken` at `i + 1`; value errors pass
/// through with their own cursor.
pub open spec fn spec_parse_member(ts: Seq<TokenModel>, i: int) -> Result<
    (NodeModel, int),
    (ParseError, int),
>
    decreases ts.len() - i, 1int,
{
    if !(0 <= i < ts.len() && ts[i] is StringLiteral) {
        Err((ParseError::NotAString, i))
    } else if !(i + 1 < ts.len() && ts[i + 1] is Colon) {
        Err((ParseError::UnexpectedToken, i + 1))
    } else {
        match spec_parse_value(ts, i + 2) {
            Ok((v, j)) => Ok(
                (
                    NodeModel::Member(
                        Box::new(NodeModel::StringValue(ts[i]->StringLiteral_0)),
                        Box::new(v),
                    ),
                    j,
                ),
            ),
            Err(e) => Err(e),
        }
    }
}

/// The result of parsing an array at position `i`: `[`, one or more
/// values separated by commas, `]`. Every failure carries the cursor
/// where parsing stopped: a missing opening bracket is
/// `UnexpectedToken` at `i`, a missing closing bracket is
/// `UnexpectedToken` right after the elements, and element errors pass
/// through with their own cursor.
pub open spec fn spec_parse_array(ts: Seq<TokenModel>, i: int) -> Result<
    (NodeModel, int),
    (ParseError, int),
>
    decreases ts.len() - i, 0int,
{
    if !(0 <= i < ts.len() && ts[i] is LeftBracket) {
        Err((ParseError::UnexpectedToken, i))
    } else {
        match spec_parse_elements(ts, i + 1) {
            Ok((vs, j)) => {
                if 0 <= j < ts.len() && ts[j] is RightBracket {
                    Ok((NodeModel::Array(vs), j + 1))
                } else {
                    Err((ParseError::UnexpectedToken, j))
                }
            },
            Err(e) => Err(e),
        }
    }
}

/// The result of parsing one or more comma-separated values from
/// position `i`: the element models in order and the cursor after the
/// last element.
pub open spec fn spec_parse_elements(ts: Seq<TokenModel>, i: int) -> Result<
    (Seq<NodeModel>, int),
    (ParseError, int),
>
    decreases ts.len() - i, 2int,
{
    match spec_parse_value(ts, i) {
        Ok((v, j)) => {
            if 0 <= j < ts.len() && ts[j] is Comma {
                // A successful parse always advances the cursor, so this
                // guard cannot fail; it gives the termination check the
                // bound it needs for the recursive call.
                if i <= j {
                    match spec_parse_elements(ts, j + 1) {
                        Ok((vs, k)) => Ok((seq![v] + vs, k)),
                        Err(e) => Err(e),
                    }
                } else {
                    Err((ParseError::UnexpectedToken, j))
                }
            } else {
                Ok((seq![v], j))
            }
        },
        Err(e) => Err(e),
    }
}

/// The result of parsing one value at position `i`, dispatching on the
/// token there: a leaf token parses directly; `{` and `[` open a nested
/// document or array; any other token (or a missing one) is
/// `InvalidToken` with the cursor left at `i`.
pub open spec fn spec_parse_value(ts: Seq<TokenModel>, i: int) -> Result<
    (NodeModel, int),
    (ParseError, int),
>
    decreases ts.len() - i, 1int,
{
    if !(0 <= i < ts.len()) {
        Err((ParseError::InvalidToken, i))
    } else {
        match ts[i] {
            TokenModel::StringLiteral(t) => Ok((NodeModel::StringValue(t), i + 1)),
            TokenModel::NumberLiteral(t) => Ok((NodeModel::NumberValue(t), i + 1)),
            TokenModel::BooleanLiteral(t) => Ok((NodeModel::BooleanValue(t), i + 1)),
            TokenModel::NullLiteral => Ok((NodeModel::NullValue(null_text()), i + 1)),
            TokenModel::LeftBrace => spec_parse_objects(ts, i),
            TokenModel::LeftBracket => spec_parse_array(ts, i),
            _ => Err((ParseError::InvalidToken, i)),
        }
    }
}

/// A successful parse of a value consumes at least one token and never
/// passes the end of the sequence.
pub proof fn lemma_value_progress(ts: Seq<TokenModel>, i: int)
    ensures
        spec_parse_value(ts, i) matches Ok((m, j)) ==> i < j <= ts.len(),
    decreases ts.len() - i, 1int,
{
    if 0 <= i < ts.len() {
        match ts[i] {
            TokenModel::LeftBrace => lemma_objects_progress(ts, i),
            TokenModel::LeftBracket => lemma_array_progress(ts, i),
            _ => {
            },
        }
    }
}

/// A successful parse of a document consumes at least one token and
/// never passes the end of the sequence.
pub proof fn lemma_objects_progress(ts: Seq<TokenModel>, i: int)
    ensures
        spec_parse_objects(ts, i) matches Ok((m, j)) ==> i < j <= ts.len(),
    decreases ts.len() - i, 0int,
{
    if 0 <= i < ts.len() && ts[i] is LeftBrace {
        lemma_members_progress(ts, i + 1);
    }
}

/// A successful parse of an array consumes at least one token and never
/// passes the end of the sequence.
pub proof fn lemma_array_progress(ts: Seq<TokenModel>, i: int)
    ensures
        spec_parse_array(ts, i) matches Ok((m, j)) ==> i < j <= ts.len(),
    decreases ts.len() - i, 0int,
{
    if 0 <= i < ts.len() && ts[i] is LeftBracket {
        lemma_elements_progress(ts, i + 1);
    }
}

/// A successful parse of a member list consumes at least one token and
/// never passes the end of the sequence.
pub proof fn lemma_members_progress(ts: Seq<TokenModel>, i: int)
    ensures
        spec_parse_members(ts, i) matches Ok((ms, j)) ==> i < j <= ts.len(),
    decreases ts.len() - i, 2int,
{
    lemma_member_progress(ts, i);
    match spec_parse_member(ts, i) {
        Ok((m, j)) => {
            if 0 <= j < ts.len() && ts[j] is Comma && i <= j {
                lemma_members_progress(ts, j + 1);
            }
        },
        Err(_) => {
        },
    }
}

/// A successful parse of an element list consumes at least one token
/// and never passes the end of the sequence.
pub proof fn lemma_elements_progress(ts: Seq<TokenModel>, i: int)
    ensures
        spec_parse_elements(ts, i) matches Ok((vs, j)) ==> i < j <= ts.len(),
    decreases ts.len() - i, 2int,
{
    lemma_value_progress(ts, i);
    match spec_parse_value(ts, i) {
        Ok((v, j)) => {
            if 0 <= j < ts.len() && ts[j] is Comma && i <= j {
                lemma_elements_progress(ts, j + 1);
            }
        },
        Err(_) => {
        },
    }
}

/// A successful parse of a member consumes at least three tokens and
/// never passes the end of the sequence.
pub proof fn lemma_member_progress(ts: Seq<TokenModel>, i: int)
    ensures
        spec_parse_member(ts, i) matches Ok((m, j)) ==> i + 2 < j <= ts.len(),
    decreases ts.len() - i, 1int,
{
    if 0 <= i < ts.len() && ts[i] is StringLiteral && i + 1 < ts.len() && ts[i + 1] is Colon {
        lemma_value_progress(ts, i + 2);
    }
}

/// Puts already-parsed member or element models in front of the models
/// of a list-parsing result, passing an error through.
pub open spec fn prepend_members(
    ms: Seq<NodeModel>,
    r: Result<(Seq<NodeModel>, int), (ParseError, int)>,
) -> Result<(Seq<NodeModel>, int), (ParseError, int)> {
    match r {
        Ok((rest, j)) => Ok((ms + rest, j)),
        Err(e) => Err(e),
    }
}

/// One step of a member or element loop: the models collected so far
/// absorb the one just parsed.
proof fn lemma_members_step(
    ms: Seq<NodeModel>,
    m: NodeModel,
    r: Result<(Seq<NodeModel>, int), (ParseError, int)>,
)
    ensures
        prepend_members(ms.push(m), r) == prepend_members(
            ms,
            match r {
                Ok((rest, j)) => Ok((seq![m] + rest, j)),
                Err(e) => Err(e),
            },
        ),
{
    match r {
        Ok((rest, j)) => {
            assert(ms.push(m) + rest =~= ms + (seq![m] + rest));
        },
        Err(_) => {
        },
    }
}

/// Structural equality of two tokens: the same variant with the same
/// carried text.
fn token_eq(a: &Token, b: &Token) -> (r: bool)
    ensures
        r == (a@ == b@),
{
    match (a, b) {
        (Token::LeftBrace, Token::LeftBrace) => true,
        (Token::RightBrace, Token::RightBrace) => true,
        (Token::LeftBracket, Token::LeftBracket) => true,
        (Token::RightBracket, Token::RightBracket) => true,
        (Token::Comma, Token::Comma) => true,
        (Token::Colon, Token::Colon) => true,
        (Token::StringLiteral(x), Token::StringLiteral(y)) => *x == *y,
        (Token::NumberLiteral(x), Token::NumberLiteral(y)) => *x == *y,
        (Token::BooleanLiteral(x), Token::BooleanLiteral(y)) => *x == *y,
        (Token::NullLiteral, Token::NullLiteral) => true,
        _ => false,
    }
}

/// Consumes the token at the cursor when it equals the wanted one:
/// advances the cursor by one and reports success; otherwise leaves the
/// cursor in place and reports failure.
fn expect_token(token_type: Token, token_list: &Vec<Token>, index: &mut usize) -> (r: bool)
    ensures
        r == (*old(index) < token_list@.len() && token_list@[*old(index) as int]@
            == token_type@),
        r ==> *final(index) == *old(index) + 1,
        !r ==> *final(index) == *old(index),
{
    if *index < token_list.len() {
        if token_eq(&token_type, &token_list[*index]) {
            *index += 1;
            return true;
        }
    }
    false
}

/// Parses a whole token sequence as a document, starting at its first
/// token. Tokens after the document, if any, are left unread.
pub fn parse(token_list: Vec<Token>) -> (r: Result<Node, ParseError>)
    ensures
        ({
            let sp = spec_parse_objects(tok_models(token_list@), 0);
            match r {
                Ok(node) => sp matches Ok((m, j)) && node@ == m,
                Err(e) => sp matches Err((e2, j2)) && e == e2,
            }
        }),
{
    let mut index: usize = 0;
    parse_objects(&token_list, &mut index)
}

/// Parses a document at the cursor: `{`, one or more comma-separated
/// members, `}`. On success the cursor stands right after the closing
/// brace; on failure the result is exactly the error of the
/// specification parser and the cursor stands exactly where it says
/// parsing stopped.
pub fn parse_objects(token_list: &Vec<Token>, index: &mut usize) -> (r: Result<Node, ParseError>)
    ensures
        ({
            let sp = spec_parse_objects(tok_models(token_list@), *old(index) as int);
            match r {
                Ok(node) => sp matches Ok((m, j)) && node@ == m && *final(index) == j,
                Err(e) => sp matches Err((e2, j2)) && e == e2 && *final(index) == j2,
            }
        }),
        *old(index) <= *final(index),
        *old(index) <= token_list@.len() ==> *final(index) <= token_list@.len(),
    decreases token_list@.len() - *index, 0int,
{
    let ghost ts = tok_models(token_list@);
    let ghost i0 = *index as int;
    let mut value: Vec<Node> = Vec::new();
    if !expect_token(Token::LeftBrace, token_list, index) {
        return Err(ParseError::UnexpectedToken);
    }
    let ghost start = *index as int;
    proof {
        assert(prepend_members(node_models(value@, 0), spec_parse_members(ts, start))
            == spec_parse_members(ts, start)) by {
            match spec_parse_members(ts, start) {
                Ok((rest, j)) => {
                    assert(node_models(value@, 0) + rest =~= rest);
                },
                Err(_) => {
                },
            }
        }
    }
    loop
        invariant_except_break
            spec_parse_members(ts, start) == prepend_members(
                node_models(value@, 0),
                spec_parse_members(ts, *index as int),
            ),
        invariant
            ts == tok_models(token_list@),
            i0 == *old(index) as int,
            i0 + 1 == start,
            0 <= i0 < ts.len(),
            ts[i0] is LeftBrace,
            start <= *index as int <= ts.len(),
        ensures
            ts == tok_models(token_list@),
            spec_parse_members(ts, start) matches Ok((ms, j)) && ms == node_models(value@, 0)
                && j == *index as int,
            start <= *index as int <= ts.len(),
        decreases ts.len() - *index + 1, 0int,
    {
        let ghost cur = *index as int;
        let ghost ms_before = node_models(value@, 0);
        match parse_object(token_list, index) {
            Ok(v) => {
                proof {
                    lemma_node_models_push(value@, v, 0);
                }
                value.push(v);
            },
            Err(e) => {
                return Err(e);
            },
        }
        let ghost m = node_model(value@.last());
        let ghost after_member = *index as int;
        if !expect_token(Token::Comma, token_list, index) {
            proof {
                assert(spec_parse_members(ts, cur) == Ok::<_, (ParseError, int)>((
                    seq![m],
                    after_member,
                )));
                assert(ms_before + seq![m] =~= node_models(value@, 0));
            }
            break ;
        }
        proof {
            lemma_member_progress(ts, cur);
            lemma_members_step(ms_before, m, spec_parse_members(ts, *index as int));
        }
    }
    if !expect_token(Token::RightBrace, token_list, index) {
        return Err(ParseError::UnexpectedToken);
    }
    Ok(Node::Document(ObjectListNode { value }))
}

/// Parses one member at the cursor: a string key, a colon, and a
/// value. On failure the cursor stands exactly where the specification
/// parser says parsing stopped: in place for a non-string key, one
/// past the key for a missing colon, and wherever the value parser
/// stopped for a value error.
pub fn parse_object(token_list: &Vec<Token>, index: &mut usize) -> (r: Result<Node, ParseError>)
    ensures
        ({
            let sp = spec_parse_member(tok_models(token_list@), *old(index) as int);
            match r {
                Ok(node) => sp matches Ok((m, j)) && node@ == m && *final(index) == j,
                Err(e) => sp matches Err((e2, j2)) && e == e2 && *final(index) == j2,
            }
        }),
        *old(index) <= *final(index),
        *old(index) <= token_list@.len() ==> *final(index) <= token_list@.len(),
    decreases token_list@.len() - *index, 0int,
{
    let key_result = match parse_string(token_list, index) {
        Ok(key) => key,
        Err(e) => {
            return Err(e);
        },
    };
    if !expect_token(Token::Colon, token_list, index) {
        return Err(ParseError::UnexpectedToken);
    }
    let value_result = match parse_value(token_list, index) {
        Ok(value) => value,
        Err(e) => {
            return Err(e);
        },
    };
    Ok(Node::Member(ObjectNode { key: Box::new(key_result), value: Box::new(value_result) }))
}

/// Parses an array at the cursor: `[`, one or more comma-separated
/// values, `]`. On failure the cursor stands exactly where the
/// specification parser says parsing stopped.
pub fn parse_array(token_list: &Vec<Token>, index: &mut usize) -> (r: Result<Node, ParseError>)
    ensures
        ({
            let sp = spec_parse_array(tok_models(token_list@), *old(index) as int);
            match r {
                Ok(node) => sp matches Ok((m, j)) && node@ == m && *final(index) == j,
                Err(e) => sp matches Err((e2, j2)) && e == e2 && *final(index) == j2,
            }
        }),
        *old(index) <= *final(index),
        *old(index) <= token_list@.len() ==> *final(index) <= token_list@.len(),
    decreases token_list@.len() - *index, 0int,
{
    let ghost ts = tok_models(token_list@);
    let ghost i0 = *index as int;
    let mut value: Vec<Node> = Vec::new();
    if !expect_token(Token::LeftBracket, token_list, index) {
        return Err(ParseError::UnexpectedToken);
    }
    let ghost start = *index as int;
    proof {
        assert(prepend_members(node_models(value@, 0), spec_parse_elements(ts, start))
            == spec_parse_elements(ts, start)) by {
            match spec_parse_elements(ts, start) {
                Ok((rest, j)) => {
                    assert(node_models(value@, 0) + rest =~= rest);
                },
                Err(_) => {
                },
            }
        }
    }
    loop
        invariant_except_break
            spec_parse_elements(ts, start) == prepend_members(
                node_models(value@, 0),
                spec_parse_elements(ts, *index as int),
            ),
        invariant
            ts == tok_models(token_list@),
            i0 == *old(index) as int,
            i0 + 1 == start,
            0 <= i0 < ts.len(),
            ts[i0] is LeftBracket,
            start <= *index as int <= ts.len(),
        ensures
            ts == tok_models(token_list@),
            spec_parse_elements(ts, start) matches Ok((vs, j)) && vs == node_models(value@, 0)
                && j == *index as int,
            start <= *index as int <= ts.len(),
        decreases ts.len() - *index + 1, 0int,
    {
        let ghost cur = *index as int;
        let ghost ms_before = node_models(value@, 0);
        match parse_value(token_list, index) {
            Ok(v) => {
                proof {
                    lemma_node_models_push(value@, v, 0);
                }
                value.push(v);
            },
            Err(e) => {
                return Err(e);
            },
        }
        let ghost m = node_model(value@.last());
        let ghost after_element = *index as int;
        if !expect_token(Token::Comma, token_list, index) {
            proof {
                assert(spec_parse_elements(ts, cur) == Ok::<_, (ParseError, int)>((
                    seq![m],
                    after_element,
                )));
                assert(ms_before + seq![m] =~= node_models(value@, 0));
            }
            break ;
        }
        proof {
            lemma_value_progress(ts, cur);
            lemma_members_step(ms_before, m, spec_parse_elements(ts, *index as int));
        }
    }
    if !expect_token(Token::RightBracket, token_list, index) {
        return Err(ParseError::UnexpectedToken);
    }
    Ok(Node::Array(ArrayNode { value }))
}

/// Parses one value at the cursor, dispatching on the token there. A
/// token that can start no value leaves the cursor in place; errors of
/// the chosen sub-rule pass through, cursor included.
pub fn parse_value(token_list: &Vec<Token>, index: &mut usize) -> (r: Result<Node, ParseError>)
    ensures
        ({
            let sp = spec_parse_value(tok_models(token_list@), *old(index) as int);
            match r {
                Ok(node) => sp matches Ok((m, j)) && node@ == m && *final(index) == j,
                Err(e) => sp matches Err((e2, j2)) && e == e2 && *final(index) == j2,
            }
        }),
        *old(index) <= *final(index),
        *old(index) <= token_list@.len() ==> *final(index) <= token_list@.len(),
    decreases token_list@.len() - *index, 1int,
{
    if *index >= token_list.len() {
        return Err(ParseError::InvalidToken);
    }
    match &token_list[*index] {
        Token::StringLiteral(_) => parse_string(token_list, index),
        Token::NumberLiteral(_) => parse_number(token_list, index),
        Token::BooleanLiteral(_) => parse_bool(token_list, index),
        Token::NullLiteral => parse_null(token_list, index),
        Token::LeftBrace => parse_objects(token_list, index),
        Token::LeftBracket => parse_array(token_list, index),
        _ => Err(ParseError::InvalidToken),
    }
}

/// Converts the string token at the cursor to a string leaf; on any
/// other token it fails with the cursor unmoved.
pub fn parse_string(token_list: &Vec<Token>, index: &mut usize) -> (r: Result<Node, ParseError>)
    ensures
        ({
            let sp = spec_parse_string(tok_models(token_list@), *old(index) as int);
            match r {
                Ok(node) => sp matches Ok((m, j)) && node@ == m && *final(index) == j,
                Err(e) => sp matches Err((e2, j2)) && e == e2 && *final(index) == j2,
            }
        }),
        *old(index) <= *final(index),
        *old(index) <= token_list@.len() ==> *final(index) <= token_list@.len(),
{
    if *index < token_list.len() {
        match &token_list[*index] {
            Token::StringLiteral(string) => {
                let node = Node::StringValue(StringNode { value: string.clone() });
                *index += 1;
                Ok(node)
            },
            _ => Err(ParseError::NotAString),
        }
    } else {
        Err(ParseError::NotAString)
    }
}

/// Converts the number token at the cursor to a number leaf; on any
/// other token it fails with the cursor unmoved.
pub fn parse_number(token_list: &Vec<Token>, index: &mut usize) -> (r: Result<Node, ParseError>)
    ensures
        ({
            let sp = spec_parse_number(tok_models(token_list@), *old(index) as int);
            match r {
                Ok(node) => sp matches Ok((m, j)) && node@ == m && *final(index) == j,
                Err(e) => sp matches Err((e2, j2)) && e == e2 && *final(index) == j2,
            }
        }),
        *old(index) <= *final(index),
        *old(index) <= token_list@.len() ==> *final(index) <= token_list@.len(),
{
    if *index < token_list.len() {
        match &token_list[*index] {
            Token::NumberLiteral(string) => {
                let node = Node::NumberValue(NumberNode { value: string.clone() });
                *index += 1;
                Ok(node)
            },
            _ => Err(ParseError::NotANumber),
        }
    } else {
        Err(ParseError::NotANumber)
    }
}

/// Converts the boolean token at the cursor to a boolean leaf; on any
/// other token it fails with the cursor unmoved.
pub fn parse_bool(token_list: &Vec<Token>, index: &mut usize) -> (r: Result<Node, ParseError>)
    ensures
        ({
            let sp = spec_parse_bool(tok_models(token_list@), *old(index) as int);
            match r {
                Ok(node) => sp matches Ok((m, j)) && node@ == m && *final(index) == j,
                Err(e) => sp matches Err((e2, j2)) && e == e2 && *final(index) == j2,
            }
        }),
        *old(index) <= *final(index),
        *old(index) <= token_list@.len() ==> *final(index) <= token_list@.len(),
{
    if *index < token_list.len() {
        match &token_list[*index] {
            Token::BooleanLiteral(string) => {
                let node = Node::BooleanValue(BoolNode { value: string.clone() });
                *index += 1;
                Ok(node)
            },
            _ => Err(ParseError::NotABoolean),
        }
    } else {
        Err(ParseError::NotABoolean)
    }
}

/// Converts the null token at the cursor to a null leaf holding the
/// text `null`; on any other token it fails with the cursor unmoved.
pub fn parse_null(token_list: &Vec<Token>, index: &mut usize) -> (r: Result<Node, ParseError>)
    ensures
        ({
            let sp = spec_parse_null(tok_models(token_list@), *old(index) as int);
            match r {
                Ok(node) => sp matches Ok((m, j)) && node@ == m && *final(index) == j,
                Err(e) => sp matches Err((e2, j2)) && e == e2 && *final(index) == j2,
            }
        }),
        *old(index) <= *final(index),
        *old(index) <= token_list@.len() ==> *final(index) <= token_list@.len(),
{
    if *index < token_list.len() {
        match &token_list[*index] {
            Token::NullLiteral => {
                let mut text = String::new();
                push_char(&mut text, 'n');
                push_char(&mut text, 'u');
                push_char(&mut text, 'l');
                push_char(&mut text, 'l');
                proof {
                    assert(text@ =~= null_text());
                }
                let node = Node::NullValue(NullNode { value: text });
                *index += 1;
                Ok(node)
            },
            _ => Err(ParseError::NotANull),
        }
    } else {
        Err(ParseError::NotANull)
    }
}

/// The compact rendering of a node model: children joined by `,` with
/// no whitespace, documents wrapped in `{...}`, arrays in `[...]`,
/// members as `key:value`, and leaf text verbatim.
pub open spec fn compact(m: NodeModel) -> Seq<char>
    decreases m, 0int,
{
    match m {
        NodeModel::Document(l) => seq!['{'] + compact_list(l, 0) + seq!['}'],
        NodeModel::Member(k, v) => compact(*k) + seq![':'] + compact(*v),
        NodeModel::Array(l) => seq!['['] + compact_list(l, 0) + seq![']'],
        NodeModel::StringValue(t) => t,
        NodeModel::NumberValue(t) => t,
        NodeModel::BooleanValue(t) => t,
        NodeModel::NullValue(t) => t,
    }
}

/// The compact renderings of the models of `l` from position `i` on,
/// joined by `,`.
pub open spec fn compact_list(l: Seq<NodeModel>, i: int) -> Seq<char>
    decreases l, l.len() - i,
{
    if 0 <= i < l.len() {
        if i + 1 < l.len() {
            compact(l[i]) + seq![','] + compact_list(l, i + 1)
        } else {
            compact(l[i])
        }
    } else {
        Seq::empty()
    }
}

/// The indented rendering of a node model, with indent unit `unit` and
/// the current line prefix `pre`: each element of a composite stands on
/// its own line prefixed by one more unit, elements are joined by
/// `,\n`, and the closing bracket stands on its own line at the
/// parent's prefix. A member renders its key, then `: `, then its
/// value: inline for a leaf, as a nested block for a composite.
pub open spec fn indented(m: NodeModel, unit: Seq<char>, pre: Seq<char>) -> Seq<char>
    decreases m, 0int,
{
    match m {
        NodeModel::Document(l) => seq!['{', '\n'] + indented_list(l, unit, pre + unit, 0) + seq![
            '\n',
        ] + pre + seq!['}'],
        NodeModel::Member(k, v) => indented(*k, unit, pre) + seq![':', ' '] + indented(
            *v,
            unit,
            pre,
        ),
        NodeModel::Array(l) => seq!['[', '\n'] + indented_list(l, unit, pre + unit, 0) + seq![
            '\n',
        ] + pre + seq![']'],
        NodeModel::StringValue(t) => t,
        NodeModel::NumberValue(t) => t,
        NodeModel::BooleanValue(t) => t,
        NodeModel::NullValue(t) => t,
    }
}

/// The indented renderings of the models of `l` from position `i` on,
/// each prefixed by `pre`, joined by `,\n`.
pub open spec fn indented_list(l: Seq<NodeModel>, unit: Seq<char>, pre: Seq<char>, i: int) -> Seq<
    char,
>
    decreases l, l.len() - i,
{
    if 0 <= i < l.len() {
        if i + 1 < l.len() {
            pre + indented(l[i], unit, pre) + seq![',', '\n'] + indented_list(l, unit, pre, i + 1)
        } else {
            pre + indented(l[i], unit, pre)
        }
    } else {
        Seq::empty()
    }
}

impl View for ObjectListNode {
    type V = NodeModel;

    open spec fn view(&self) -> NodeModel {
        NodeModel::Document(node_models(self.value@, 0))
    }
}

impl View for ObjectNode {
    type V = NodeModel;

    open spec fn view(&self) -> NodeModel {
        NodeModel::Member(Box::new(node_model(*self.key)), Box::new(node_model(*self.value)))
    }
}

impl View for ArrayNode {
    type V = NodeModel;

    open spec fn view(&self) -> NodeModel {
        NodeModel::Array(node_models(self.value@, 0))
    }
}

impl View for StringNode {
    type V = NodeModel;

    open spec fn view(&self) -> NodeModel {
        NodeModel::StringValue(self.value@)
    }
}

impl View for NumberNode {
    type V = NodeModel;

    open spec fn view(&self) -> NodeModel {
        NodeModel::NumberValue(self.value@)
    }
}

impl View for BoolNode {
    type V = NodeModel;

    open spec fn view(&self) -> NodeModel {
        NodeModel::BooleanValue(self.value@)
    }
}

impl View for NullNode {
    type V = NodeModel;

    open spec fn view(&self) -> NodeModel {
        NodeModel::NullValue(self.value@)
    }
}

impl Node {
    /// The compact rendering of this node.
    pub fn print_node(&self) -> (r: String)
        ensures
            r@ == compact(self@),
        decreases *self, 1int,
    {
        match self {
            Node::Document(d) => d.print_node(),
            Node::Member(m) => m.print_node(),
            Node::Array(a) => a.print_node(),
            Node::StringValue(s) => s.print_node(),
            Node::NumberValue(s) => s.print_node(),
            Node::BooleanValue(s) => s.print_node(),
            Node::NullValue(s) => s.print_node(),
        }
    }

    /// The indented rendering of this node at the outermost level, with
    /// the given indent unit.
    pub fn format_node(&self, indent: &String) -> (r: String)
        ensures
            r@ == indented(self@, indent@, Seq::<char>::empty()),
    {
        let pre = String::new();
        format_value(self, indent, &pre)
    }
}

/// The compact renderings of the nodes of `v` from position `i` on,
/// joined by `,`.
fn print_items(v: &Vec<Node>, i: usize) -> (r: String)
    requires
        i <= v@.len(),
    ensures
        r@ == compact_list(node_models(v@, 0), i as int),
    decreases v@, v@.len() - i,
{
    proof {
        lemma_node_models_index(v@, 0);
    }
    if i < v.len() {
        let mut s = v[i].print_node();
        if i + 1 < v.len() {
            push_char(&mut s, ',');
            let rest = print_items(v, i + 1);
            s.append(rest.as_str());
            proof {
                assert(s@ =~= compact(node_models(v@, 0)[i as int]) + seq![','] + compact_list(
                    node_models(v@, 0),
                    i + 1,
                ));
            }
        }
        s
    } else {
        String::new()
    }
}

impl ObjectListNode {
    /// The compact rendering of this document: its members joined by
    /// `,`, wrapped in braces.
    pub fn print_node(&self) -> (r: String)
        ensures
            r@ == compact(self@),
        decreases *self, 0int,
    {
        let mut s = String::new();
        push_char(&mut s, '{');
        let items = print_items(&self.value, 0);
        s.append(items.as_str());
        push_char(&mut s, '}');
        proof {
            assert(s@ =~= seq!['{'] + compact_list(node_models(self.value@, 0), 0) + seq!['}']);
        }
        s
    }

    /// The indented rendering of this document at the outermost level,
    /// with the given indent unit.
    pub fn format_node(&self, indent: &String) -> (r: String)
        ensures
            r@ == indented(self@, indent@, Seq::<char>::empty()),
    {
        let pre = String::new();
        format_document(&self.value, indent, &pre)
    }
}

impl ObjectNode {
    /// The compact rendering of this member: `key:value`.
    pub fn print_node(&self) -> (r: String)
        ensures
            r@ == compact(self@),
        decreases *self, 0int,
    {
        let mut s = self.key.print_node();
        push_char(&mut s, ':');
        let value_text = self.value.print_node();
        s.append(value_text.as_str());
        proof {
            assert(s@ =~= compact(node_model(*self.key)) + seq![':'] + compact(
                node_model(*self.value),
            ));
        }
        s
    }

    /// The indented rendering of this member at the outermost level,
    /// with the given indent unit: `key: value`.
    pub fn format_node(&self, indent: &String) -> (r: String)
        ensures
            r@ == indented(self@, indent@, Seq::<char>::empty()),
    {
        let pre = String::new();
        let mut s = format_value(&self.key, indent, &pre);
        push_char(&mut s, ':');
        push_char(&mut s, ' ');
        let value_text = format_value(&self.value, indent, &pre);
        s.append(value_text.as_str());
        proof {
            assert(s@ =~= indented(node_model(*self.key), indent@, Seq::<char>::empty()) + seq![
                ':',
                ' ',
            ] + indented(node_model(*self.value), indent@, Seq::<char>::empty()));
        }
        s
    }
}

impl ArrayNode {
    /// The compact rendering of this array: its elements joined by `,`,
    /// wrapped in square brackets.
    pub fn print_node(&self) -> (r: String)
        ensures
            r@ == compact(self@),
        decreases *self, 0int,
    {
        let mut s = String::new();
        push_char(&mut s, '[');
        let items = print_items(&self.value, 0);
        s.append(items.as_str());
        push_char(&mut s, ']');
        proof {
            assert(s@ =~= seq!['['] + compact_list(node_models(self.value@, 0), 0) + seq![']']);
        }
        s
    }

    /// The indented rendering of this array at the outermost level,
    /// with the given indent unit.
    pub fn format_node(&self, indent: &String) -> (r: String)
        ensures
            r@ == indented(self@, indent@, Seq::<char>::empty()),
    {
        let pre = String::new();
        format_array(&self.value, indent, &pre)
    }
}

impl StringNode {
    /// The stored literal text, verbatim.
    pub fn print_node(&self) -> (r: String)
        ensures
            r@ == compact(self@),
    {
        self.value.clone()
    }

    /// The stored literal text, verbatim; indentation does not reach
    /// inside a leaf.
    pub fn format_node(&self, _indent: &String) -> (r: String)
        ensures
            r@ == indented(self@, _indent@, Seq::<char>::empty()),
    {
        self.value.clone()
    }
}

impl NumberNode {
    /// The stored literal text, verbatim.
    pub fn print_node(&self) -> (r: String)
        ensures
            r@ == compact(self@),
    {
        self.value.clone()
    }

    /// The stored literal text, verbatim; indentation does not reach
    /// inside a leaf.
    pub fn format_node(&self, _indent: &String) -> (r: String)
        ensures
            r@ == indented(self@, _indent@, Seq::<char>::empty()),
    {
        self.value.clone()
    }
}

impl BoolNode {
    /// The stored keyword text, verbatim.
    pub fn print_node(&self) -> (r: String)
        ensures
            r@ == compact(self@),
    {
        self.value.clone()
    }

    /// The stored keyword text, verbatim; indentation does not reach
    /// inside a leaf.
    pub fn format_node(&self, _indent: &String) -> (r: String)
        ensures
            r@ == indented(self@, _indent@, Seq::<char>::empty()),
    {
        self.value.clone()
    }
}

impl NullNode {
    /// The stored keyword text, verbatim.
    pub fn print_node(&self) -> (r: String)
        ensures
            r@ == compact(self@),
    {
        self.value.clone()
    }

    /// The stored keyword text, verbatim; indentation does not reach
    /// inside a leaf.
    pub fn format_node(&self, _indent: &String) -> (r: String)
        ensures
            r@ == indented(self@, _indent@, Seq::<char>::empty()),
    {
        self.value.clone()
    }
}

/// The indented rendering of one value node with the given line prefix.
fn format_value(n: &Node, indent: &String, pre: &String) -> (r: String)
    ensures
        r@ == indented(node_model(*n), indent@, pre@),
    decreases *n, 1int,
{
    match n {
        Node::Document(d) => format_document(&d.value, indent, pre),
        Node::Member(m) => {
            let mut s = format_value(&m.key, indent, pre);
            push_char(&mut s, ':');
            push_char(&mut s, ' ');
            let value_text = format_value(&m.value, indent, pre);
            s.append(value_text.as_str());
            proof {
                assert(s@ =~= indented(node_model(*m.key), indent@, pre@) + seq![':', ' ']
                    + indented(node_model(*m.value), indent@, pre@));
            }
            s
        },
        Node::Array(a) => format_array(&a.value, indent, pre),
        Node::StringValue(s) => s.value.clone(),
        Node::NumberValue(s) => s.value.clone(),
        Node::BooleanValue(s) => s.value.clone(),
        Node::NullValue(s) => s.value.clone(),
    }
}

/// The indented rendering of a document with the given line prefix:
/// each member on its own line one unit deeper, the closing brace on
/// its own line at the prefix.
fn format_document(v: &Vec<Node>, indent: &String, pre: &String) -> (r: String)
    ensures
        r@ == indented(NodeModel::Document(node_models(v@, 0)), indent@, pre@),
    decreases v@, v@.len() + 2,
{
    let mut s = String::new();
    push_char(&mut s, '{');
    push_char(&mut s, '\n');
    let mut inner = pre.clone();
    inner.append(indent.as_str());
    let items = format_items(v, indent, &inner, 0);
    s.append(items.as_str());
    push_char(&mut s, '\n');
    s.append(pre.as_str());
    push_char(&mut s, '}');
    proof {
        assert(s@ =~= seq!['{', '\n'] + indented_list(node_models(v@, 0), indent@, pre@ + indent@, 0)
            + seq!['\n'] + pre@ + seq!['}']);
    }
    s
}

/// The indented rendering of an array with the given line prefix: each
/// element on its own line one unit deeper, the closing bracket on its
/// own line at the prefix.
fn format_array(v: &Vec<Node>, indent: &String, pre: &String) -> (r: String)
    ensures
        r@ == indented(NodeModel::Array(node_models(v@, 0)), indent@, pre@),
    decreases v@, v@.len() + 2,
{
    let mut s = String::new();
    push_char(&mut s, '[');
    push_char(&mut s, '\n');
    let mut inner = pre.clone();
    inner.append(indent.as_str());
    let items = format_items(v, indent, &inner, 0);
    s.append(items.as_str());
    push_char(&mut s, '\n');
    s.append(pre.as_str());
    push_char(&mut s, ']');
    proof {
        assert(s@ =~= seq!['[', '\n'] + indented_list(node_models(v@, 0), indent@, pre@ + indent@, 0)
            + seq!['\n'] + pre@ + seq![']']);
    }
    s
}

/// The indented renderings of the nodes of `v` from position `i` on,
/// each prefixed by `pre`, joined by `,\n`.
fn format_items(v: &Vec<Node>, indent: &String, pre: &String, i: usize) -> (r: String)
    requires
        i <= v@.len(),
    ensures
        r@ == indented_list(node_models(v@, 0), indent@, pre@, i as int),
    decreases v@, v@.len() - i,
{
    proof {
        lemma_node_models_index(v@, 0);
    }
    if i < v.len() {
        let mut s = pre.clone();
        let item = format_value(&v[i], indent, pre);
        s.append(item.as_str());
        if i + 1 < v.len() {
            push_char(&mut s, ',');
            push_char(&mut s, '\n');
            let rest = format_items(v, indent, pre, i + 1);
            s.append(rest.as_str());
            proof {
                assert(s@ =~= pre@ + indented(node_models(v@, 0)[i as int], indent@, pre@) + seq![
                    ',',
                    '\n',
                ] + indented_list(node_models(v@, 0), indent@, pre@, i + 1));
            }
        } else {
            proof {
                assert(s@ =~= pre@ + indented(node_models(v@, 0)[i as int], indent@, pre@));
            }
        }
        s
    } else {
        String::new()
    }
}

/// The whitespace-stripped form of a character sequence: every space,
/// tab, carriage return and newline removed.
pub open spec fn strip_ws(s: Seq<char>) -> Seq<char>
    decreases s.len(),
{
    if s.len() == 0 {
        Seq::empty()
    } else if is_ws_char(s[0]) {
        strip_ws(s.drop_first())
    } else {
        seq![s[0]] + strip_ws(s.drop_first())
    }
}

/// True when every character of `s` is whitespace.
pub open spec fn all_ws(s: Seq<char>) -> bool {
    forall|k: int| 0 <= k < s.len() ==> is_ws_char(s[k])
}

/// True when no character of `s` is whitespace.
pub open spec fn ws_free_text(s: Seq<char>) -> bool {
    forall|k: int| 0 <= k < s.len() ==> !is_ws_char(s[k])
}

/// Stripping distributes over concatenation.
proof fn lemma_strip_add(a: Seq<char>, b: Seq<char>)
    ensures
        strip_ws(a + b) == strip_ws(a) + strip_ws(b),
    decreases a.len(),
{
    if a.len() == 0 {
        assert(a + b =~= b);
        assert(strip_ws(a) + strip_ws(b) =~= strip_ws(b));
    } else {
        assert((a + b).drop_first() =~= a.drop_first() + b);
        lemma_strip_add(a.drop_first(), b);
        if !is_ws_char(a[0]) {
            assert(seq![a[0]] + (strip_ws(a.drop_first()) + strip_ws(b)) =~= (seq![a[0]]
                + strip_ws(a.drop_first())) + strip_ws(b));
        }
    }
}

/// Stripping an all-whitespace sequence leaves nothing.
proof fn lemma_strip_all_ws(s: Seq<char>)
    requires
        all_ws(s),
    ensures
        strip_ws(s) == Seq::<char>::empty(),
    decreases s.len(),
{
    if s.len() > 0 {
        lemma_strip_all_ws(s.drop_first());
    }
}

/// Stripping a whitespace-free sequence changes nothing.
proof fn lemma_strip_ws_free(s: Seq<char>)
    requires
        ws_free_text(s),
    ensures
        strip_ws(s) == s,
    decreases s.len(),
{
    if s.len() > 0 {
        lemma_strip_ws_free(s.drop_first());
        assert(seq![s[0]] + s.drop_first() =~= s);
    }
}

/// Stripping a single character keeps or removes it by its class.
proof fn lemma_strip_one(c: char)
    ensures
        strip_ws(seq![c]) == if is_ws_char(c) {
            Seq::<char>::empty()
        } else {
            seq![c]
        },
{
    reveal_with_fuel(strip_ws, 2);
    assert(seq![c].drop_first() =~= Seq::<char>::empty());
    if !is_ws_char(c) {
        assert(seq![c] + Seq::<char>::empty() =~= seq![c]);
    }
}

/// True when every leaf text inside the tree is whitespace-free.
pub open spec fn ws_free(m: NodeModel) -> bool
    decreases m, 0int,
{
    match m {
        NodeModel::Document(l) => ws_free_list(l, 0),
        NodeModel::Member(k, v) => ws_free(*k) && ws_free(*v),
        NodeModel::Array(l) => ws_free_list(l, 0),
        NodeModel::StringValue(t) => ws_free_text(t),
        NodeModel::NumberValue(t) => ws_free_text(t),
        NodeModel::BooleanValue(t) => ws_free_text(t),
        NodeModel::NullValue(t) => ws_free_text(t),
    }
}

/// True when every leaf text inside the models of `l` from `i` on is
/// whitespace-free.
pub open spec fn ws_free_list(l: Seq<NodeModel>, i: int) -> bool
    decreases l, l.len() - i,
{
    if 0 <= i < l.len() {
        ws_free(l[i]) && ws_free_list(l, i + 1)
    } else {
        true
    }
}

/// The two render modes are structurally equivalent: stripping every
/// whitespace character from the indented rendering yields exactly the
/// compact rendering, for any tree whose leaf texts hold no whitespace
/// and any all-whitespace indent unit and line prefix.
pub proof fn lemma_indented_strips_to_compact(m: NodeModel, unit: Seq<char>, pre: Seq<char>)
    requires
        ws_free(m),
        all_ws(unit),
        all_ws(pre),
    ensures
        strip_ws(indented(m, unit, pre)) == compact(m),
    decreases m, 0int,
{
    match m {
        NodeModel::Document(l) => {
            let inner = pre + unit;
            assert(all_ws(inner));
            lemma_indented_list_strips(l, unit, inner, 0);
            let a = seq!['{', '\n'];
            let b = indented_list(l, unit, inner, 0);
            let c = seq!['\n'];
            let e = seq!['}'];
            lemma_strip_add(a + b + c + pre, e);
            lemma_strip_add(a + b + c, pre);
            lemma_strip_add(a + b, c);
            lemma_strip_add(a, b);
            assert(a =~= seq!['{'] + seq!['\n']);
            lemma_strip_add(seq!['{'], seq!['\n']);
            lemma_strip_one('{');
            lemma_strip_one('\n');
            lemma_strip_one('}');
            lemma_strip_all_ws(pre);
            assert(strip_ws(indented(m, unit, pre)) =~= seq!['{'] + compact_list(l, 0) + seq![
                '}',
            ]);
        },
        NodeModel::Member(k, v) => {
            lemma_indented_strips_to_compact(*k, unit, pre);
            lemma_indented_strips_to_compact(*v, unit, pre);
            let ik = indented(*k, unit, pre);
            let iv = indented(*v, unit, pre);
            let sep = seq![':', ' '];
            lemma_strip_add(ik + sep, iv);
            lemma_strip_add(ik, sep);
            assert(sep =~= seq![':'] + seq![' ']);
            lemma_strip_add(seq![':'], seq![' ']);
            lemma_strip_one(':');
            lemma_strip_one(' ');
            assert(strip_ws(indented(m, unit, pre)) =~= compact(*k) + seq![':'] + compact(*v));
        },
        NodeModel::Array(l) => {
            let inner = pre + unit;
            assert(all_ws(inner));
            lemma_indented_list_strips(l, unit, inner, 0);
            let a = seq!['[', '\n'];
            let b = indented_list(l, unit, inner, 0);
            let c = seq!['\n'];
            let e = seq![']'];
            lemma_strip_add(a + b + c + pre, e);
            lemma_strip_add(a + b + c, pre);
            lemma_strip_add(a + b, c);
            lemma_strip_add(a, b);
            assert(a =~= seq!['['] + seq!['\n']);
            lemma_strip_add(seq!['['], seq!['\n']);
            lemma_strip_one('[');
            lemma_strip_one('\n');
            lemma_strip_one(']');
            lemma_strip_all_ws(pre);
            assert(strip_ws(indented(m, unit, pre)) =~= seq!['['] + compact_list(l, 0) + seq![
                ']',
            ]);
        },
        NodeModel::StringValue(t) => {
            lemma_strip_ws_free(t);
        },
        NodeModel::NumberValue(t) => {
            lemma_strip_ws_free(t);
        },
        NodeModel::BooleanValue(t) => {
            lemma_strip_ws_free(t);
        },
        NodeModel::NullValue(t) => {
            lemma_strip_ws_free(t);
        },
    }
}

/// Stripping the indented rendering of a node list yields its compact
/// rendering.
proof fn lemma_indented_list_strips(l: Seq<NodeModel>, unit: Seq<char>, pre: Seq<char>, i: int)
    requires
        ws_free_list(l, i),
        all_ws(unit),
        all_ws(pre),
        0 <= i,
    ensures
        strip_ws(indented_list(l, unit, pre, i)) == compact_list(l, i),
    decreases l, l.len() - i,
{
    if i < l.len() {
        lemma_indented_strips_to_compact(l[i], unit, pre);
        let it = indented(l[i], unit, pre);
        lemma_strip_all_ws(pre);
        if i + 1 < l.len() {
            lemma_indented_list_strips(l, unit, pre, i + 1);
            let sep = seq![',', '\n'];
            let rest = indented_list(l, unit, pre, i + 1);
            lemma_strip_add(pre + it + sep, rest);
            lemma_strip_add(pre + it, sep);
            lemma_strip_add(pre, it);
            assert(sep =~= seq![','] + seq!['\n']);
            lemma_strip_add(seq![','], seq!['\n']);
            lemma_strip_one(',');
            lemma_strip_one('\n');
            assert(strip_ws(indented_list(l, unit, pre, i)) =~= compact(l[i]) + seq![',']
                + compact_list(l, i + 1));
        } else {
            lemma_strip_add(pre, it);
            assert(strip_ws(indented_list(l, unit, pre, i)) =~= compact(l[i]));
        }
    }
}

/// A well-formed value tree: documents and arrays are non-empty with
/// well-formed children, and every leaf holds a complete lexeme of its
/// kind. A bare member is not a value.
pub open spec fn wf_value(m: NodeModel) -> bool
    decreases m, 0int,
{
    match m {
        NodeModel::Document(l) => l.len() >= 1 && wf_members(l, 0),
        NodeModel::Member(_, _) => false,
        NodeModel::Array(l) => l.len() >= 1 && wf_elements(l, 0),
        NodeModel::StringValue(t) => wf_string_text(t),
        NodeModel::NumberValue(t) => is_number_lexeme(t),
        NodeModel::BooleanValue(t) => t == keyword_true() || t == keyword_false(),
        NodeModel::NullValue(t) => t == null_text(),
    }
}

/// A well-formed member: a string key with a well-formed quoted lexeme
/// and a well-formed value.
pub open spec fn wf_member(m: NodeModel) -> bool
    decreases m, 1int,
{
    &&& m matches NodeModel::Member(k, v)
    &&& (*k matches NodeModel::StringValue(t) && wf_string_text(t))
    &&& wf_value(*v)
}

/// Every member of `l` from `i` on is well-formed.
pub open spec fn wf_members(l: Seq<NodeModel>, i: int) -> bool
    decreases l, l.len() - i,
{
    if 0 <= i < l.len() {
        wf_member(l[i]) && wf_members(l, i + 1)
    } else {
        true
    }
}

/// Every element of `l` from `i` on is a well-formed value.
pub open spec fn wf_elements(l: Seq<NodeModel>, i: int) -> bool
    decreases l, l.len() - i,
{
    if 0 <= i < l.len() {
        wf_value(l[i]) && wf_elements(l, i + 1)
    } else {
        true
    }
}

/// A well-formed document tree: a document node, well-formed as a
/// value. This is the shape of every tree the parser builds.
pub open spec fn wf_document(m: NodeModel) -> bool {
    m is Document && wf_value(m)
}

/// The token sequence that renders a node: the tokens that the
/// tokenizer produces from its compact rendering.
pub open spec fn toks_of(m: NodeModel) -> Seq<TokenModel>
    decreases m, 0int,
{
    match m {
        NodeModel::Document(l) => seq![TokenModel::LeftBrace] + toks_of_list(l, 0) + seq![
            TokenModel::RightBrace,
        ],
        NodeModel::Member(k, v) => toks_of(*k) + seq![TokenModel::Colon] + toks_of(*v),
        NodeModel::Array(l) => seq![TokenModel::LeftBracket] + toks_of_list(l, 0) + seq![
            TokenModel::RightBracket,
        ],
        NodeModel::StringValue(t) => seq![TokenModel::StringLiteral(t)],
        NodeModel::NumberValue(t) => seq![TokenModel::NumberLiteral(t)],
        NodeModel::BooleanValue(t) => seq![TokenModel::BooleanLiteral(t)],
        NodeModel::NullValue(_) => seq![TokenModel::NullLiteral],
    }
}

/// The token sequences of the nodes of `l` from `i` on, joined by
/// comma tokens.
pub open spec fn toks_of_list(l: Seq<NodeModel>, i: int) -> Seq<TokenModel>
    decreases l, l.len() - i,
{
    if 0 <= i < l.len() {
        if i + 1 < l.len() {
            toks_of(l[i]) + seq![TokenModel::Comma] + toks_of_list(l, i + 1)
        } else {
            toks_of(l[i])
        }
    } else {
        Seq::empty()
    }
}

/// A position right after a rendered value: the end of the input or
/// one of the characters that can follow a value in a rendered tree.
/// None of them continues a number lexeme.
spec fn tail_boundary(s: Seq<char>, j: int) -> bool {
    j == s.len() || s[j] == ',' || s[j] == ':' || s[j] == '}' || s[j] == ']'
}

/// Prepending token sequences one after the other is prepending their
/// concatenation.
proof fn lemma_prepend_tokens_assoc(
    a: Seq<TokenModel>,
    b: Seq<TokenModel>,
    r: Result<Seq<TokenModel>, TokenizeError>,
)
    ensures
        prepend_tokens(a, prepend_tokens(b, r)) == prepend_tokens(a + b, r),
{
    match r {
        Ok(ts) => {
            assert(a + (b + ts) =~= (a + b) + ts);
        },
        Err(_) => {
        },
    }
}

/// Prepending one token is prepending its singleton sequence.
proof fn lemma_prepend_token_one(t: TokenModel, r: Result<Seq<TokenModel>, TokenizeError>)
    ensures
        prepend_token(t, r) == prepend_tokens(seq![t], r),
{
}

/// Tokenizing the compact rendering of a well-formed value, wherever
/// it stands in the input, yields exactly its token sequence and
/// continues right after the rendering.
proof fn lemma_tokenize_compact_at(m: NodeModel, s: Seq<char>, i: int)
    requires
        wf_value(m),
        has_at(s, i, compact(m)),
        tail_boundary(s, i + compact(m).len()),
    ensures
        spec_tokenize(s, i) == prepend_tokens(toks_of(m), spec_tokenize(s, i + compact(m).len())),
    decreases m, 1int,
{
    match m {
        NodeModel::Document(l) => {
            let cl = compact_list(l, 0);
            assert(compact(m) =~= seq!['{'] + (cl + seq!['}']));
            lemma_has_at_split(s, i, seq!['{'], cl + seq!['}']);
            lemma_has_at_split(s, i + 1, cl, seq!['}']);
            assert(s[i + 0] == (seq!['{'])[0]);
            assert(s[(i + 1 + cl.len()) + 0] == (seq!['}'])[0]);
            assert(s[i] == '{');
            assert(s[i + 1 + cl.len()] == '}');
            lemma_tokenize_compact_members(l, 0, s, i + 1);
            let after = spec_tokenize(s, i + compact(m).len());
            assert(spec_tokenize(s, i + 1 + cl.len()) == prepend_token(
                TokenModel::RightBrace,
                after,
            ));
            lemma_prepend_token_one(TokenModel::RightBrace, after);
            lemma_prepend_tokens_assoc(
                toks_of_list(l, 0),
                seq![TokenModel::RightBrace],
                after,
            );
            lemma_prepend_token_one(
                TokenModel::LeftBrace,
                spec_tokenize(s, i + 1),
            );
            lemma_prepend_tokens_assoc(
                seq![TokenModel::LeftBrace],
                toks_of_list(l, 0) + seq![TokenModel::RightBrace],
                after,
            );
            assert(seq![TokenModel::LeftBrace] + (toks_of_list(l, 0) + seq![
                TokenModel::RightBrace,
            ]) =~= toks_of(m));
        },
        NodeModel::Member(_, _) => {
        },
        NodeModel::Array(l) => {
            let cl = compact_list(l, 0);
            assert(compact(m) =~= seq!['['] + (cl + seq![']']));
            lemma_has_at_split(s, i, seq!['['], cl + seq![']']);
            lemma_has_at_split(s, i + 1, cl, seq![']']);
            assert(s[i + 0] == (seq!['['])[0]);
            assert(s[(i + 1 + cl.len()) + 0] == (seq![']'])[0]);
            assert(s[i] == '[');
            assert(s[i + 1 + cl.len()] == ']');
            lemma_tokenize_compact_elements(l, 0, s, i + 1);
            let after = spec_tokenize(s, i + compact(m).len());
            assert(spec_tokenize(s, i + 1 + cl.len()) == prepend_token(
                TokenModel::RightBracket,
                after,
            ));
            lemma_prepend_token_one(TokenModel::RightBracket, after);
            lemma_prepend_tokens_assoc(
                toks_of_list(l, 0),
                seq![TokenModel::RightBracket],
                after,
            );
            lemma_prepend_token_one(
                TokenModel::LeftBracket,
                spec_tokenize(s, i + 1),
            );
            lemma_prepend_tokens_assoc(
                seq![TokenModel::LeftBracket],
                toks_of_list(l, 0) + seq![TokenModel::RightBracket],
                after,
            );
            assert(seq![TokenModel::LeftBracket] + (toks_of_list(l, 0) + seq![
                TokenModel::RightBracket,
            ]) =~= toks_of(m));
        },
        NodeModel::StringValue(t) => {
            lemma_tok_string_at(s, i, t);
            lemma_prepend_token_one(
                TokenModel::StringLiteral(t),
                spec_tokenize(s, i + t.len()),
            );
        },
        NodeModel::NumberValue(t) => {
            lemma_tok_number_at(s, i, t);
            lemma_prepend_token_one(
                TokenModel::NumberLiteral(t),
                spec_tokenize(s, i + t.len()),
            );
        },
        NodeModel::BooleanValue(t) => {
            if t == keyword_true() {
                lemma_tok_true_at(s, i);
            } else {
                lemma_tok_false_at(s, i);
            }
            lemma_prepend_token_one(
                TokenModel::BooleanLiteral(t),
                spec_tokenize(s, i + t.len()),
            );
        },
        NodeModel::NullValue(t) => {
            assert(null_text() =~= keyword_null());
            lemma_tok_null_at(s, i);
            lemma_prepend_token_one(TokenModel::NullLiteral, spec_tokenize(s, i + 4));
        },
    }
}

/// Tokenizing the compact rendering of a member: its key token, a
/// colon token, and its value's tokens.
proof fn lemma_tokenize_compact_member(m: NodeModel, s: Seq<char>, i: int)
    requires
        wf_member(m),
        has_at(s, i, compact(m)),
        tail_boundary(s, i + compact(m).len()),
    ensures
        spec_tokenize(s, i) == prepend_tokens(toks_of(m), spec_tokenize(s, i + compact(m).len())),
    decreases m, 2int,
{
    let k = m->Member_0;
    let v = m->Member_1;
    let t = (*k)->StringValue_0;
    let ck = compact(*k);
    let cv = compact(*v);
    assert(*k == NodeModel::StringValue(t));
    assert(ck == t);
    assert(toks_of(*k) =~= seq![TokenModel::StringLiteral(t)]);
    assert(compact(m) =~= ck + (seq![':'] + cv));
    lemma_has_at_split(s, i, ck, seq![':'] + cv);
    lemma_has_at_split(s, i + ck.len(), seq![':'], cv);
    assert(s[(i + ck.len()) + 0] == (seq![':'])[0]);
    assert(s[i + ck.len()] == ':');
    lemma_tok_string_at(s, i, t);
    let p1 = i + ck.len();
    let after = spec_tokenize(s, i + compact(m).len());
    assert(spec_tokenize(s, p1) == prepend_token(TokenModel::Colon, spec_tokenize(s, p1 + 1)));
    lemma_tokenize_compact_at(*v, s, p1 + 1);
    lemma_prepend_tokens_assoc(seq![TokenModel::Colon], toks_of(*v), after);
    lemma_prepend_token_one(TokenModel::Colon, spec_tokenize(s, p1 + 1));
    lemma_prepend_token_one(TokenModel::StringLiteral(t), spec_tokenize(s, p1));
    lemma_prepend_tokens_assoc(
        seq![TokenModel::StringLiteral(t)],
        seq![TokenModel::Colon] + toks_of(*v),
        after,
    );
    assert(seq![TokenModel::StringLiteral(t)] + (seq![TokenModel::Colon] + toks_of(*v)) =~= toks_of(
        m,
    ));
}

/// Tokenizing the compact rendering of a comma-joined member list
/// yields its comma-joined token sequence.
proof fn lemma_tokenize_compact_members(l: Seq<NodeModel>, li: int, s: Seq<char>, i: int)
    requires
        0 <= li < l.len(),
        wf_members(l, li),
        has_at(s, i, compact_list(l, li)),
        tail_boundary(s, i + compact_list(l, li).len()),
    ensures
        spec_tokenize(s, i) == prepend_tokens(
            toks_of_list(l, li),
            spec_tokenize(s, i + compact_list(l, li).len()),
        ),
    decreases l, l.len() - li,
{
    let mm = l[li];
    let cm = compact(mm);
    let after = spec_tokenize(s, i + compact_list(l, li).len());
    if li + 1 < l.len() {
        let rest = compact_list(l, li + 1);
        assert(compact_list(l, li) =~= cm + (seq![','] + rest));
        lemma_has_at_split(s, i, cm, seq![','] + rest);
        lemma_has_at_split(s, i + cm.len(), seq![','], rest);
        assert(s[(i + cm.len()) + 0] == (seq![','])[0]);
        assert(s[i + cm.len()] == ',');
        lemma_tokenize_compact_member(mm, s, i);
        let p1 = i + cm.len();
        assert(spec_tokenize(s, p1) == prepend_token(TokenModel::Comma, spec_tokenize(s, p1 + 1)));
        lemma_tokenize_compact_members(l, li + 1, s, p1 + 1);
        lemma_prepend_tokens_assoc(seq![TokenModel::Comma], toks_of_list(l, li + 1), after);
        lemma_prepend_token_one(TokenModel::Comma, spec_tokenize(s, p1 + 1));
        lemma_prepend_tokens_assoc(
            toks_of(mm),
            seq![TokenModel::Comma] + toks_of_list(l, li + 1),
            after,
        );
        assert(toks_of(mm) + (seq![TokenModel::Comma] + toks_of_list(l, li + 1)) =~= toks_of_list(
            l,
            li,
        ));
    } else {
        lemma_tokenize_compact_member(mm, s, i);
    }
}

/// Tokenizing the compact rendering of a comma-joined element list
/// yields its comma-joined token sequence.
proof fn lemma_tokenize_compact_elements(l: Seq<NodeModel>, li: int, s: Seq<char>, i: int)
    requires
        0 <= li < l.len(),
        wf_elements(l, li),
        has_at(s, i, compact_list(l, li)),
        tail_boundary(s, i + compact_list(l, li).len()),
    ensures
        spec_tokenize(s, i) == prepend_tokens(
            toks_of_list(l, li),
            spec_tokenize(s, i + compact_list(l, li).len()),
        ),
    decreases l, l.len() - li,
{
    let mm = l[li];
    let cm = compact(mm);
    let after = spec_tokenize(s, i + compact_list(l, li).len());
    if li + 1 < l.len() {
        let rest = compact_list(l, li + 1);
        assert(compact_list(l, li) =~= cm + (seq![','] + rest));
        lemma_has_at_split(s, i, cm, seq![','] + rest);
        lemma_has_at_split(s, i + cm.len(), seq![','], rest);
        assert(s[(i + cm.len()) + 0] == (seq![','])[0]);
        assert(s[i + cm.len()] == ',');
        lemma_tokenize_compact_at(mm, s, i);
        let p1 = i + cm.len();
        assert(spec_tokenize(s, p1) == prepend_token(TokenModel::Comma, spec_tokenize(s, p1 + 1)));
        lemma_tokenize_compact_elements(l, li + 1, s, p1 + 1);
        lemma_prepend_tokens_assoc(seq![TokenModel::Comma], toks_of_list(l, li + 1), after);
        lemma_prepend_token_one(TokenModel::Comma, spec_tokenize(s, p1 + 1));
        lemma_prepend_tokens_assoc(
            toks_of(mm),
            seq![TokenModel::Comma] + toks_of_list(l, li + 1),
            after,
        );
        assert(toks_of(mm) + (seq![TokenModel::Comma] + toks_of_list(l, li + 1)) =~= toks_of_list(
            l,
            li,
        ));
    } else {
        lemma_tokenize_compact_at(mm, s, i);
    }
}

/// True when the token sequence `xs` occurs in `ts` at position `i`.
pub open spec fn has_toks_at(ts: Seq<TokenModel>, i: int, xs: Seq<TokenModel>) -> bool {
    &&& 0 <= i
    &&& i + xs.len() <= ts.len()
    &&& forall|k: int| 0 <= k < xs.len() ==> ts[i + k] == xs[k]
}

/// An occurrence of a concatenation is an occurrence of each part.
proof fn lemma_toks_split(ts: Seq<TokenModel>, i: int, a: Seq<TokenModel>, b: Seq<TokenModel>)
    requires
        has_toks_at(ts, i, a + b),
    ensures
        has_toks_at(ts, i, a),
        has_toks_at(ts, i + a.len(), b),
{
    assert forall|k: int| 0 <= k < a.len() implies ts[i + k] == a[k] by {
        assert((a + b)[k] == a[k]);
        assert(ts[i + k] == (a + b)[k]);
    }
    assert forall|k: int| 0 <= k < b.len() implies ts[i + a.len() + k] == b[k] by {
        assert((a + b)[a.len() + k] == b[k]);
        assert(ts[i + (a.len() + k)] == (a + b)[a.len() + k]);
    }
}

/// Every node renders to at least one token.
proof fn lemma_toks_of_nonempty(m: NodeModel)
    ensures
        toks_of(m).len() >= 1,
{
}

/// Parsing a value at its own token sequence rebuilds exactly that
/// value and consumes exactly its tokens.
proof fn lemma_parse_value_of_toks(m: NodeModel, ts: Seq<TokenModel>, i: int)
    requires
        wf_value(m),
        has_toks_at(ts, i, toks_of(m)),
    ensures
        spec_parse_value(ts, i) == Ok::<(NodeModel, int), (ParseError, int)>(
            (m, i + toks_of(m).len()),
        ),
    decreases m, 1int,
{
    assert(ts[i + 0] == toks_of(m)[0]);
    match m {
        NodeModel::Document(_) => {
            lemma_parse_objects_of_toks(m, ts, i);
        },
        NodeModel::Array(_) => {
            lemma_parse_array_of_toks(m, ts, i);
        },
        NodeModel::Member(_, _) => {
        },
        NodeModel::StringValue(_) => {
        },
        NodeModel::NumberValue(_) => {
        },
        NodeModel::BooleanValue(_) => {
        },
        NodeModel::NullValue(_) => {
        },
    }
}

/// Parsing a document at its own token sequence rebuilds exactly that
/// document and consumes exactly its tokens.
pub proof fn lemma_parse_objects_of_toks(m: NodeModel, ts: Seq<TokenModel>, i: int)
    requires
        m is Document,
        wf_value(m),
        has_toks_at(ts, i, toks_of(m)),
    ensures
        spec_parse_objects(ts, i) == Ok::<(NodeModel, int), (ParseError, int)>(
            (m, i + toks_of(m).len()),
        ),
    decreases m, 0int,
{
    let l = m->Document_0;
    let lt = toks_of_list(l, 0);
    assert(toks_of(m) =~= seq![TokenModel::LeftBrace] + (lt + seq![TokenModel::RightBrace]));
    lemma_toks_split(ts, i, seq![TokenModel::LeftBrace], lt + seq![TokenModel::RightBrace]);
    lemma_toks_split(ts, i + 1, lt, seq![TokenModel::RightBrace]);
    assert(ts[i + 0] == (seq![TokenModel::LeftBrace])[0]);
    assert(ts[(i + 1 + lt.len()) + 0] == (seq![TokenModel::RightBrace])[0]);
    lemma_parse_members_of_toks(l, 0, ts, i + 1);
    assert(l.subrange(0, l.len() as int) =~= l);
}

/// Parsing an array at its own token sequence rebuilds exactly that
/// array and consumes exactly its tokens.
proof fn lemma_parse_array_of_toks(m: NodeModel, ts: Seq<TokenModel>, i: int)
    requires
        m is Array,
        wf_value(m),
        has_toks_at(ts, i, toks_of(m)),
    ensures
        spec_parse_array(ts, i) == Ok::<(NodeModel, int), (ParseError, int)>(
            (m, i + toks_of(m).len()),
        ),
    decreases m, 0int,
{
    let l = m->Array_0;
    let lt = toks_of_list(l, 0);
    assert(toks_of(m) =~= seq![TokenModel::LeftBracket] + (lt + seq![TokenModel::RightBracket]));
    lemma_toks_split(ts, i, seq![TokenModel::LeftBracket], lt + seq![TokenModel::RightBracket]);
    lemma_toks_split(ts, i + 1, lt, seq![TokenModel::RightBracket]);
    assert(ts[i + 0] == (seq![TokenModel::LeftBracket])[0]);
    assert(ts[(i + 1 + lt.len()) + 0] == (seq![TokenModel::RightBracket])[0]);
    lemma_parse_elements_of_toks(l, 0, ts, i + 1);
    assert(l.subrange(0, l.len() as int) =~= l);
}

/// Parsing a member at its own token sequence rebuilds exactly that
/// member and consumes exactly its tokens.
proof fn lemma_parse_member_of_toks(m: NodeModel, ts: Seq<TokenModel>, i: int)
    requires
        wf_member(m),
        has_toks_at(ts, i, toks_of(m)),
    ensures
        spec_parse_member(ts, i) == Ok::<(NodeModel, int), (ParseError, int)>(
            (m, i + toks_of(m).len()),
        ),
    decreases m, 2int,
{
    let k = m->Member_0;
    let v = m->Member_1;
    let t = (*k)->StringValue_0;
    assert(*k == NodeModel::StringValue(t));
    assert(toks_of(*k) =~= seq![TokenModel::StringLiteral(t)]);
    assert(toks_of(m) =~= toks_of(*k) + (seq![TokenModel::Colon] + toks_of(*v)));
    lemma_toks_split(ts, i, toks_of(*k), seq![TokenModel::Colon] + toks_of(*v));
    lemma_toks_split(ts, i + 1, seq![TokenModel::Colon], toks_of(*v));
    assert(ts[i + 0] == (seq![TokenModel::StringLiteral(t)])[0]);
    assert(ts[(i + 1) + 0] == (seq![TokenModel::Colon])[0]);
    lemma_toks_of_nonempty(*v);
    lemma_parse_value_of_toks(*v, ts, i + 2);
}

/// Parsing a member list at its own comma-joined token sequence, with
/// no comma token right after it, rebuilds exactly those members.
proof fn lemma_parse_members_of_toks(l: Seq<NodeModel>, li: int, ts: Seq<TokenModel>, i: int)
    requires
        0 <= li < l.len(),
        wf_members(l, li),
        has_toks_at(ts, i, toks_of_list(l, li)),
        ({
            let j = i + toks_of_list(l, li).len();
            j == ts.len() || !(ts[j] is Comma)
        }),
    ensures
        spec_parse_members(ts, i) == Ok::<(Seq<NodeModel>, int), (ParseError, int)>(
            (l.subrange(li, l.len() as int), i + toks_of_list(l, li).len()),
        ),
    decreases l, l.len() - li,
{
    let mm = l[li];
    let tm = toks_of(mm);
    if li + 1 < l.len() {
        let rest = toks_of_list(l, li + 1);
        assert(toks_of_list(l, li) =~= tm + (seq![TokenModel::Comma] + rest));
        lemma_toks_split(ts, i, tm, seq![TokenModel::Comma] + rest);
        lemma_toks_split(ts, i + tm.len(), seq![TokenModel::Comma], rest);
        assert(ts[(i + tm.len()) + 0] == (seq![TokenModel::Comma])[0]);
        lemma_parse_member_of_toks(mm, ts, i);
        lemma_parse_members_of_toks(l, li + 1, ts, i + tm.len() + 1);
        assert(seq![mm] + l.subrange(li + 1, l.len() as int) =~= l.subrange(li, l.len() as int));
    } else {
        lemma_parse_member_of_toks(mm, ts, i);
        assert(seq![mm] =~= l.subrange(li, l.len() as int));
    }
}

/// Parsing an element list at its own comma-joined token sequence,
/// with no comma token right after it, rebuilds exactly those
/// elements.
proof fn lemma_parse_elements_of_toks(l: Seq<NodeModel>, li: int, ts: Seq<TokenModel>, i: int)
    requires
        0 <= li < l.len(),
        wf_elements(l, li),
        has_toks_at(ts, i, toks_of_list(l, li)),
        ({
            let j = i + toks_of_list(l, li).len();
            j == ts.len() || !(ts[j] is Comma)
        }),
    ensures
        spec_parse_elements(ts, i) == Ok::<(Seq<NodeModel>, int), (ParseError, int)>(
            (l.subrange(li, l.len() as int), i + toks_of_list(l, li).len()),
        ),
    decreases l, l.len() - li,
{
    let mm = l[li];
    let tm = toks_of(mm);
    if li + 1 < l.len() {
        let rest = toks_of_list(l, li + 1);
        assert(toks_of_list(l, li) =~= tm + (seq![TokenModel::Comma] + rest));
        lemma_toks_split(ts, i, tm, seq![TokenModel::Comma] + rest);
        lemma_toks_split(ts, i + tm.len(), seq![TokenModel::Comma], rest);
        assert(ts[(i + tm.len()) + 0] == (seq![TokenModel::Comma])[0]);
        lemma_parse_value_of_toks(mm, ts, i);
        lemma_parse_elements_of_toks(l, li + 1, ts, i + tm.len() + 1);
        assert(seq![mm] + l.subrange(li + 1, l.len() as int) =~= l.subrange(li, l.len() as int));
    } else {
        lemma_parse_value_of_toks(mm, ts, i);
        assert(seq![mm] =~= l.subrange(li, l.len() as int));
    }
}

/// Unfolds the member well-formedness of a list to a statement about
/// each member.
proof fn lemma_wf_members_iff(l: Seq<NodeModel>, i: int)
    requires
        0 <= i <= l.len(),
    ensures
        wf_members(l, i) <==> (forall|k: int| i <= k < l.len() ==> wf_member(#[trigger] l[k])),
    decreases l.len() - i,
{
    if i < l.len() {
        lemma_wf_members_iff(l, i + 1);
    }
}

/// Unfolds the element well-formedness of a list to a statement about
/// each element.
proof fn lemma_wf_elements_iff(l: Seq<NodeModel>, i: int)
    requires
        0 <= i <= l.len(),
    ensures
        wf_elements(l, i) <==> (forall|k: int| i <= k < l.len() ==> wf_value(#[trigger] l[k])),
    decreases l.len() - i,
{
    if i < l.len() {
        lemma_wf_elements_iff(l, i + 1);
    }
}

/// Every value the parser builds from well-formed tokens is
/// well-formed.
pub proof fn lemma_parse_value_wf(ts: Seq<TokenModel>, i: int)
    requires
        forall|k: int| 0 <= k < ts.len() ==> wf_token(#[trigger] ts[k]),
    ensures
        spec_parse_value(ts, i) matches Ok((m, j)) ==> wf_value(m),
    decreases ts.len() - i, 1int,
{
    if 0 <= i < ts.len() {
        assert(wf_token(ts[i]));
        match ts[i] {
            TokenModel::LeftBrace => lemma_parse_objects_wf(ts, i),
            TokenModel::LeftBracket => lemma_parse_array_wf(ts, i),
            _ => {
            },
        }
    }
}

/// Every document the parser builds from well-formed tokens is a
/// well-formed document.
pub proof fn lemma_parse_objects_wf(ts: Seq<TokenModel>, i: int)
    requires
        forall|k: int| 0 <= k < ts.len() ==> wf_token(#[trigger] ts[k]),
    ensures
        spec_parse_objects(ts, i) matches Ok((m, j)) ==> wf_document(m),
    decreases ts.len() - i, 0int,
{
    if 0 <= i < ts.len() && ts[i] is LeftBrace {
        lemma_parse_members_wf(ts, i + 1);
    }
}

/// Every array the parser builds from well-formed tokens is
/// well-formed.
proof fn lemma_parse_array_wf(ts: Seq<TokenModel>, i: int)
    requires
        forall|k: int| 0 <= k < ts.len() ==> wf_token(#[trigger] ts[k]),
    ensures
        spec_parse_array(ts, i) matches Ok((m, j)) ==> m is Array && wf_value(m),
    decreases ts.len() - i, 0int,
{
    if 0 <= i < ts.len() && ts[i] is LeftBracket {
        lemma_parse_elements_wf(ts, i + 1);
    }
}

/// Every member list the parser builds from well-formed tokens is
/// non-empty and well-formed.
proof fn lemma_parse_members_wf(ts: Seq<TokenModel>, i: int)
    requires
        forall|k: int| 0 <= k < ts.len() ==> wf_token(#[trigger] ts[k]),
    ensures
        spec_parse_members(ts, i) matches Ok((ms, j)) ==> ms.len() >= 1 && wf_members(ms, 0),
    decreases ts.len() - i, 2int,
{
    lemma_parse_member_wf(ts, i);
    match spec_parse_member(ts, i) {
        Ok((m, j)) => {
            if 0 <= j < ts.len() && ts[j] is Comma && i <= j {
                lemma_parse_members_wf(ts, j + 1);
                match spec_parse_members(ts, j + 1) {
                    Ok((rest, _)) => {
                        lemma_wf_members_iff(rest, 0);
                        lemma_wf_members_iff(seq![m] + rest, 0);
                        assert forall|k: int|
                            0 <= k < (seq![m] + rest).len() implies wf_member(
                            (seq![m] + rest)[k],
                        ) by {
                            if k > 0 {
                                assert(wf_member(rest[k - 1]));
                            }
                        }
                    },
                    Err(_) => {
                    },
                }
            } else {
                lemma_wf_members_iff(seq![m], 0);
            }
        },
        Err(_) => {
        },
    }
}

/// Every element list the parser builds from well-formed tokens is
/// non-empty and well-formed.
proof fn lemma_parse_elements_wf(ts: Seq<TokenModel>, i: int)
    requires
        forall|k: int| 0 <= k < ts.len() ==> wf_token(#[trigger] ts[k]),
    ensures
        spec_parse_elements(ts, i) matches Ok((vs, j)) ==> vs.len() >= 1 && wf_elements(vs, 0),
    decreases ts.len() - i, 2int,
{
    lemma_parse_value_wf(ts, i);
    match spec_parse_value(ts, i) {
        Ok((v, j)) => {
            if 0 <= j < ts.len() && ts[j] is Comma && i <= j {
                lemma_parse_elements_wf(ts, j + 1);
                match spec_parse_elements(ts, j + 1) {
                    Ok((rest, _)) => {
                        lemma_wf_elements_iff(rest, 0);
                        lemma_wf_elements_iff(seq![v] + rest, 0);
                        assert forall|k: int|
                            0 <= k < (seq![v] + rest).len() implies wf_value(
                            (seq![v] + rest)[k],
                        ) by {
                            if k > 0 {
                                assert(wf_value(rest[k - 1]));
                            }
                        }
                    },
                    Err(_) => {
                    },
                }
            } else {
                lemma_wf_elements_iff(seq![v], 0);
            }
        },
        Err(_) => {
        },
    }
}

/// Every member the parser builds from well-formed tokens is
/// well-formed.
proof fn lemma_parse_member_wf(ts: Seq<TokenModel>, i: int)
    requires
        forall|k: int| 0 <= k < ts.len() ==> wf_token(#[trigger] ts[k]),
    ensures
        spec_parse_member(ts, i) matches Ok((m, j)) ==> wf_member(m),
    decreases ts.len() - i, 1int,
{
    if 0 <= i < ts.len() && ts[i] is StringLiteral && i + 1 < ts.len() && ts[i + 1] is Colon {
        assert(wf_token(ts[i]));
        lemma_parse_value_wf(ts, i + 2);
    }
}

/// The round trip at the heart of the library: tokenizing the compact
/// rendering of a well-formed document yields exactly its token
/// sequence, and parsing that token sequence rebuilds exactly the same
/// tree, consuming every token.
pub proof fn lemma_compact_round_trip(m: NodeModel)
    requires
        wf_document(m),
    ensures
        spec_tokenize(compact(m), 0) == Ok::<Seq<TokenModel>, TokenizeError>(toks_of(m)),
        spec_parse_objects(toks_of(m), 0) == Ok::<(NodeModel, int), (ParseError, int)>(
            (m, toks_of(m).len() as int),
        ),
{
    let s = compact(m);
    assert(has_at(s, 0, compact(m)));
    lemma_tokenize_compact_at(m, s, 0);
    assert(spec_tokenize(s, s.len() as int) == Ok::<Seq<TokenModel>, TokenizeError>(Seq::empty()));
    assert(toks_of(m) + Seq::<TokenModel>::empty() =~= toks_of(m));
    assert(has_toks_at(toks_of(m), 0, toks_of(m)));
    lemma_parse_objects_of_toks(m, toks_of(m), 0);
}

/// Compact rendering is idempotent under tokenize-then-parse: a tree
/// built by the parser from any tokenizer output re-tokenizes and
/// re-parses, from its own compact rendering, to exactly itself, so a
/// second pass renders textually identical output.
pub proof fn lemma_render_reparse_identity(s0: Seq<char>)
    requires
        spec_tokenize(s0, 0) is Ok,
        spec_parse_objects(spec_tokenize(s0, 0)->Ok_0, 0) is Ok,
    ensures
        ({
            let t = spec_parse_objects(spec_tokenize(s0, 0)->Ok_0, 0)->Ok_0.0;
            &&& spec_tokenize(compact(t), 0) == Ok::<Seq<TokenModel>, TokenizeError>(toks_of(t))
            &&& spec_parse_objects(toks_of(t), 0) matches Ok((t2, end)) && t2 == t && compact(t2)
                == compact(t)
        }),
{
    let ts = spec_tokenize(s0, 0)->Ok_0;
    lemma_tokenize_tokens_wf(s0, 0);
    lemma_parse_objects_wf(ts, 0);
    let t = spec_parse_objects(ts, 0)->Ok_0.0;
    lemma_compact_round_trip(t);
}

} // verus!
