//! The tokenizer: converts a full character sequence into an ordered
//! sequence of lexical tokens in one left-to-right pass, delegating
//! numeric runs to the number scanner and failing on the first
//! unrecognized character.

use crate::number::{
    is_digit_char, is_number_lexeme, lemma_scan_bounds, lemma_scan_consumed_valid,
    lemma_scan_of_run, no_number_step, num_step, scan, NState, NumberTokenizer,
};
use crate::text::push_char;
use vstd::prelude::*;

verus! {

/// One lexical unit of a JSON document.
///
/// String, number and boolean tokens carry the exact matched lexeme
/// verbatim; a string's text includes both surrounding quote characters.
#[derive(Debug, PartialEq)]
pub enum Token {
    LeftBrace,
    RightBrace,
    LeftBracket,
    RightBracket,
    Comma,
    Colon,
    StringLiteral(String),
    NumberLiteral(String),
    BooleanLiteral(String),
    NullLiteral,
}

/// The mathematical model of a [`Token`]: the same variants with the
/// carried text as a character sequence.
pub enum TokenModel {
    LeftBrace,
    RightBrace,
    LeftBracket,
    RightBracket,
    Comma,
    Colon,
    StringLiteral(Seq<char>),
    NumberLiteral(Seq<char>),
    BooleanLiteral(Seq<char>),
    NullLiteral,
}

impl View for Token {
    type V = TokenModel;

    open spec fn view(&self) -> TokenModel {
        match self {
            Token::LeftBrace => TokenModel::LeftBrace,
            Token::RightBrace => TokenModel::RightBrace,
            Token::LeftBracket => TokenModel::LeftBracket,
            Token::RightBracket => TokenModel::RightBracket,
            Token::Comma => TokenModel::Comma,
            Token::Colon => TokenModel::Colon,
            Token::StringLiteral(t) => TokenModel::StringLiteral(t@),
            Token::NumberLiteral(t) => TokenModel::NumberLiteral(t@),
            Token::BooleanLiteral(t) => TokenModel::BooleanLiteral(t@),
            Token::NullLiteral => TokenModel::NullLiteral,
        }
    }
}

/// The models of a sequence of tokens, in order.
pub open spec fn tok_models(ts: Seq<Token>) -> Seq<TokenModel> {
    Seq::new(ts.len(), |i: int| ts[i]@)
}

/// The ways tokenizing can fail.
#[derive(Debug, PartialEq, Eq, Structural, Clone, Copy)]
pub enum TokenizeError {
    InvalidString,
    NotTrue,
    NotFalse,
    NotNull,
    InvalidCharacter,
}

/// The whitespace characters that the tokenizer consumes silently.
pub open spec fn is_ws_char(c: char) -> bool {
    c == ' ' || c == '\t' || c == '\r' || c == '\n'
}

/// The position of the first `"` at or after position `i` of `s`, if any.
pub open spec fn find_quote(s: Seq<char>, i: int) -> Option<int>
    decreases s.len() - i,
{
    if 0 <= i < s.len() {
        if s[i] == '"' {
            Some(i)
        } else {
            find_quote(s, i + 1)
        }
    } else {
        None
    }
}

/// The position right after the run of whitespace characters starting at
/// position `i` of `s`.
pub open spec fn ws_end(s: Seq<char>, i: int) -> int
    decreases s.len() - i,
{
    if 0 <= i < s.len() && is_ws_char(s[i]) {
        ws_end(s, i + 1)
    } else {
        i
    }
}

/// Puts one token in front of the token sequence of a tokenizing result,
/// passing an error through.
pub open spec fn prepend_token(t: TokenModel, r: Result<Seq<TokenModel>, TokenizeError>) -> Result<
    Seq<TokenModel>,
    TokenizeError,
> {
    match r {
        Ok(ts) => Ok(seq![t] + ts),
        Err(e) => Err(e),
    }
}

/// Puts a sequence of tokens in front of the token sequence of a
/// tokenizing result, passing an error through.
pub open spec fn prepend_tokens(ts: Seq<TokenModel>, r: Result<Seq<TokenModel>, TokenizeError>)
    -> Result<Seq<TokenModel>, TokenizeError> {
    match r {
        Ok(rest) => Ok(ts + rest),
        Err(e) => Err(e),
    }
}

/// The result of tokenizing `s` from position `i` to the end: the token
/// sequence of the remainder, or the first error.
///
/// Dispatch is on the character at the cursor: structural punctuation
/// becomes its token; `"` opens a string that runs to the next `"`;
/// `f`, `t` and `n` must open exactly `false`, `true` and `null`; `-`
/// and the digits open a number lexeme scanned by the transition table;
/// whitespace is consumed silently; anything else is invalid.
pub open spec fn spec_tokenize(s: Seq<char>, i: int) -> Result<Seq<TokenModel>, TokenizeError>
    decreases s.len() - i,
{
    if !(0 <= i < s.len()) {
        Ok(Seq::empty())
    } else if s[i] == '{' {
        prepend_token(TokenModel::LeftBrace, spec_tokenize(s, i + 1))
    } else if s[i] == '}' {
        prepend_token(TokenModel::RightBrace, spec_tokenize(s, i + 1))
    } else if s[i] == '[' {
        prepend_token(TokenModel::LeftBracket, spec_tokenize(s, i + 1))
    } else if s[i] == ']' {
        prepend_token(TokenModel::RightBracket, spec_tokenize(s, i + 1))
    } else if s[i] == ',' {
        prepend_token(TokenModel::Comma, spec_tokenize(s, i + 1))
    } else if s[i] == ':' {
        prepend_token(TokenModel::Colon, spec_tokenize(s, i + 1))
    } else if s[i] == '"' {
        match find_quote(s, i + 1) {
            Some(j) => if i <= j < s.len() {
                prepend_token(
                    TokenModel::StringLiteral(s.subrange(i, j + 1)),
                    spec_tokenize(s, j + 1),
                )
            } else {
                Err(TokenizeError::InvalidString)
            },
            None => Err(TokenizeError::InvalidString),
        }
    } else if s[i] == 'f' {
        if i + 5 <= s.len() && s[i + 1] == 'a' && s[i + 2] == 'l' && s[i + 3] == 's' && s[i + 4]
            == 'e' {
            prepend_token(TokenModel::BooleanLiteral(s.subrange(i, i + 5)), spec_tokenize(s, i + 5))
        } else {
            Err(TokenizeError::NotFalse)
        }
    } else if s[i] == 't' {
        if i + 4 <= s.len() && s[i + 1] == 'r' && s[i + 2] == 'u' && s[i + 3] == 'e' {
            prepend_token(TokenModel::BooleanLiteral(s.subrange(i, i + 4)), spec_tokenize(s, i + 4))
        } else {
            Err(TokenizeError::NotTrue)
        }
    } else if s[i] == 'n' {
        if i + 4 <= s.len() && s[i + 1] == 'u' && s[i + 2] == 'l' && s[i + 3] == 'l' {
            prepend_token(TokenModel::NullLiteral, spec_tokenize(s, i + 4))
        } else {
            Err(TokenizeError::NotNull)
        }
    } else if s[i] == '-' || is_digit_char(s[i]) {
        let j = scan(s, i, NState::Start).0;
        if i < j <= s.len() {
            prepend_token(TokenModel::NumberLiteral(s.subrange(i, j)), spec_tokenize(s, j))
        } else {
            Err(TokenizeError::InvalidCharacter)
        }
    } else if is_ws_char(s[i]) {
        spec_tokenize(s, i + 1)
    } else {
        Err(TokenizeError::InvalidCharacter)
    }
}

/// A found quote lies at or after the searched-from position, within the
/// input, on a `"`, and nothing before it in the searched range is a `"`.
proof fn lemma_find_quote_some(s: Seq<char>, i: int, j: int)
    requires
        0 <= i,
        find_quote(s, i) == Some(j),
    ensures
        i <= j < s.len(),
        s[j] == '"',
        forall|k: int| i <= k < j ==> s[k] != '"',
    decreases s.len() - i,
{
    if i < s.len() && s[i] != '"' {
        lemma_find_quote_some(s, i + 1, j);
    }
}

/// The end of a whitespace run lies between its start and the end of the
/// input, and tokenizing from the start of the run is tokenizing from
/// its end.
proof fn lemma_tokenize_ws_run(s: Seq<char>, i: int)
    requires
        0 <= i <= s.len(),
    ensures
        i <= ws_end(s, i) <= s.len(),
        spec_tokenize(s, i) == spec_tokenize(s, ws_end(s, i)),
    decreases s.len() - i,
{
    if i < s.len() && is_ws_char(s[i]) {
        lemma_tokenize_ws_run(s, i + 1);
    }
}

/// True when `new_ts` is `old_ts` with one token appended whose model
/// is `t`.
pub open spec fn pushed_token(old_ts: Seq<Token>, new_ts: Seq<Token>, t: TokenModel) -> bool {
    &&& new_ts.len() == old_ts.len() + 1
    &&& (forall|i: int| 0 <= i < old_ts.len() ==> new_ts[i] == old_ts[i])
    &&& new_ts[old_ts.len() as int]@ == t
}

/// Appending one token appends its model.
proof fn lemma_pushed_token_models(old_ts: Seq<Token>, new_ts: Seq<Token>, t: TokenModel)
    requires
        pushed_token(old_ts, new_ts, t),
    ensures
        tok_models(new_ts) == tok_models(old_ts).push(t),
{
    assert(tok_models(new_ts) =~= tok_models(old_ts).push(t));
}

/// One step of the tokenizing loop: when tokenizing from `i` yields one
/// token `t` and then continues from `j`, the tokens emitted so far may
/// absorb `t`.
proof fn lemma_tokenize_step(
    s: Seq<char>,
    i: int,
    j: int,
    t: TokenModel,
    old_ts: Seq<Token>,
    new_ts: Seq<Token>,
)
    requires
        spec_tokenize(s, i) == prepend_token(t, spec_tokenize(s, j)),
        pushed_token(old_ts, new_ts, t),
        spec_tokenize(s, 0) == prepend_tokens(tok_models(old_ts), spec_tokenize(s, i)),
    ensures
        spec_tokenize(s, 0) == prepend_tokens(tok_models(new_ts), spec_tokenize(s, j)),
{
    lemma_pushed_token_models(old_ts, new_ts, t);
    match spec_tokenize(s, j) {
        Ok(rest) => {
            assert(tok_models(old_ts) + (seq![t] + rest) =~= tok_models(old_ts).push(t) + rest);
        },
        Err(_) => {
        },
    }
}

/// Scans a string literal that starts at `*count`: the text runs to the
/// next `"`, both quotes included. Emits the string token and leaves the
/// cursor right after the closing quote, or fails with `InvalidString`
/// when no closing quote exists, leaving the cursor at the end of the
/// input and the token sequence unchanged.
pub fn distinguish_string(str_vec: &Vec<char>, count: &mut usize, vec: &mut Vec<Token>) -> (r:
    Result<(), TokenizeError>)
    requires
        *old(count) < str_vec@.len(),
    ensures
        match find_quote(str_vec@, *old(count) + 1) {
            Some(j) => r is Ok && *final(count) == j + 1 && pushed_token(
                old(vec)@,
                final(vec)@,
                TokenModel::StringLiteral(str_vec@.subrange(*old(count) as int, j + 1)),
            ),
            None => r == Err::<(), TokenizeError>(TokenizeError::InvalidString) && *final(count)
                == str_vec@.len() && final(vec)@ == old(vec)@,
        },
{
    let ghost start = *count as int;
    let n = str_vec.len();
    let mut buf = String::new();
    push_char(&mut buf, str_vec[*count]);
    *count += 1;
    proof {
        assert(buf@ =~= str_vec@.subrange(start, start + 1));
    }
    while *count < n
        invariant
            0 <= start,
            start + 1 <= *count as int <= str_vec@.len(),
            n == str_vec@.len(),
            find_quote(str_vec@, start + 1) == find_quote(str_vec@, *count as int),
            buf@ == str_vec@.subrange(start, *count as int),
            vec@ == old(vec)@,
            *old(count) == start,
        decreases str_vec@.len() - *count,
    {
        let ch = str_vec[*count];
        push_char(&mut buf, ch);
        *count += 1;
        proof {
            assert(str_vec@.subrange(start, *count as int) =~= str_vec@.subrange(
                start,
                *count - 1,
            ).push(ch));
        }
        if ch == '"' {
            proof {
                assert(find_quote(str_vec@, *count - 1) == Some(*count - 1));
            }
            vec.push(Token::StringLiteral(buf));
            return Ok(());
        }
    }
    Err(TokenizeError::InvalidString)
}

/// Matches the keyword `false` at `*count`: emits its boolean token and
/// advances the cursor by five, or fails with `NotFalse`, changing
/// nothing.
pub fn distinguish_false(str_vec: &Vec<char>, count: &mut usize, vec: &mut Vec<Token>) -> (r:
    Result<(), TokenizeError>)
    requires
        *old(count) <= str_vec@.len(),
    ensures
        ({
            let i = *old(count) as int;
            let s = str_vec@;
            if i + 5 <= s.len() && s[i] == 'f' && s[i + 1] == 'a' && s[i + 2] == 'l' && s[i + 3]
                == 's' && s[i + 4] == 'e' {
                r is Ok && *final(count) == i + 5 && pushed_token(
                    old(vec)@,
                    final(vec)@,
                    TokenModel::BooleanLiteral(s.subrange(i, i + 5)),
                )
            } else {
                r == Err::<(), TokenizeError>(TokenizeError::NotFalse) && *final(count) == i
                    && final(vec)@ == old(vec)@
            }
        }),
{
    if str_vec.len() - *count >= 5 && str_vec[*count] == 'f' && str_vec[*count + 1] == 'a'
        && str_vec[*count + 2] == 'l' && str_vec[*count + 3] == 's' && str_vec[*count + 4] == 'e' {
        let mut buf = String::new();
        push_char(&mut buf, 'f');
        push_char(&mut buf, 'a');
        push_char(&mut buf, 'l');
        push_char(&mut buf, 's');
        push_char(&mut buf, 'e');
        proof {
            assert(buf@ =~= str_vec@.subrange(*count as int, *count + 5));
        }
        vec.push(Token::BooleanLiteral(buf));
        *count += 5;
        Ok(())
    } else {
        Err(TokenizeError::NotFalse)
    }
}

/// Matches the keyword `true` at `*count`: emits its boolean token and
/// advances the cursor by four, or fails with `NotTrue`, changing
/// nothing.
pub fn distinguish_true(str_vec: &Vec<char>, count: &mut usize, vec: &mut Vec<Token>) -> (r:
    Result<(), TokenizeError>)
    requires
        *old(count) <= str_vec@.len(),
    ensures
        ({
            let i = *old(count) as int;
            let s = str_vec@;
            if i + 4 <= s.len() && s[i] == 't' && s[i + 1] == 'r' && s[i + 2] == 'u' && s[i + 3]
                == 'e' {
                r is Ok && *final(count) == i + 4 && pushed_token(
                    old(vec)@,
                    final(vec)@,
                    TokenModel::BooleanLiteral(s.subrange(i, i + 4)),
                )
            } else {
                r == Err::<(), TokenizeError>(TokenizeError::NotTrue) && *final(count) == i
                    && final(vec)@ == old(vec)@
            }
        }),
{
    if str_vec.len() - *count >= 4 && str_vec[*count] == 't' && str_vec[*count + 1] == 'r'
        && str_vec[*count + 2] == 'u' && str_vec[*count + 3] == 'e' {
        let mut buf = String::new();
        push_char(&mut buf, 't');
        push_char(&mut buf, 'r');
        push_char(&mut buf, 'u');
        push_char(&mut buf, 'e');
        proof {
            assert(buf@ =~= str_vec@.subrange(*count as int, *count + 4));
        }
        vec.push(Token::BooleanLiteral(buf));
        *count += 4;
        Ok(())
    } else {
        Err(TokenizeError::NotTrue)
    }
}

/// Matches the keyword `null` at `*count`: emits the null token and
/// advances the cursor by four, or fails with `NotNull`, changing
/// nothing.
pub fn distinguish_null(str_vec: &Vec<char>, count: &mut usize, vec: &mut Vec<Token>) -> (r:
    Result<(), TokenizeError>)
    requires
        *old(count) <= str_vec@.len(),
    ensures
        ({
            let i = *old(count) as int;
            let s = str_vec@;
            if i + 4 <= s.len() && s[i] == 'n' && s[i + 1] == 'u' && s[i + 2] == 'l' && s[i + 3]
                == 'l' {
                r is Ok && *final(count) == i + 4 && pushed_token(
                    old(vec)@,
                    final(vec)@,
                    TokenModel::NullLiteral,
                )
            } else {
                r == Err::<(), TokenizeError>(TokenizeError::NotNull) && *final(count) == i
                    && final(vec)@ == old(vec)@
            }
        }),
{
    if str_vec.len() - *count >= 4 && str_vec[*count] == 'n' && str_vec[*count + 1] == 'u'
        && str_vec[*count + 2] == 'l' && str_vec[*count + 3] == 'l' {
        vec.push(Token::NullLiteral);
        *count += 4;
        Ok(())
    } else {
        Err(TokenizeError::NotNull)
    }
}

/// Scans the number lexeme at `*count` with a fresh number scanner:
/// emits a number token holding exactly the matched text and advances
/// the cursor past it.
pub fn distinguish_number(str_vec: &Vec<char>, count: &mut usize, vec: &mut Vec<Token>)
    requires
        *old(count) <= str_vec@.len(),
    ensures
        ({
            let j = scan(str_vec@, *old(count) as int, NState::Start).0;
            *final(count) == j && pushed_token(
                old(vec)@,
                final(vec)@,
                TokenModel::NumberLiteral(str_vec@.subrange(*old(count) as int, j)),
            )
        }),
{
    let mut number_tokenizer = NumberTokenizer::new();
    let buf = number_tokenizer.tokenize(str_vec, count);
    vec.push(Token::NumberLiteral(buf));
}

/// Advances the cursor past the run of whitespace characters at
/// `*count`, emitting nothing.
pub fn consume_whitespace(str_vec: &Vec<char>, count: &mut usize)
    requires
        *old(count) <= str_vec@.len(),
    ensures
        *final(count) == ws_end(str_vec@, *old(count) as int),
{
    while *count < str_vec.len() && (str_vec[*count] == ' ' || str_vec[*count] == '\t'
        || str_vec[*count] == '\r' || str_vec[*count] == '\n')
        invariant
            *old(count) <= *count <= str_vec@.len(),
            ws_end(str_vec@, *old(count) as int) == ws_end(str_vec@, *count as int),
        decreases str_vec@.len() - *count,
    {
        *count += 1;
    }
}

/// Tokenizes a full character sequence in one left-to-right pass: on
/// success the result holds exactly the tokens of `spec_tokenize`, in
/// order; on failure it is the first error that `spec_tokenize` gives.
pub fn tokenize(str_vec: Vec<char>) -> (r: Result<Vec<Token>, TokenizeError>)
    ensures
        r is Ok ==> spec_tokenize(str_vec@, 0) == Ok::<_, TokenizeError>(tok_models(r->Ok_0@)),
        r is Err ==> spec_tokenize(str_vec@, 0) == Err::<Seq<TokenModel>, _>(r->Err_0),
{
    let mut vec: Vec<Token> = Vec::new();
    let mut count: usize = 0;
    while count < str_vec.len()
        invariant
            count <= str_vec@.len(),
            spec_tokenize(str_vec@, 0) == prepend_tokens(
                tok_models(vec@),
                spec_tokenize(str_vec@, count as int),
            ),
        decreases str_vec@.len() - count,
    {
        let ghost prev_vec = vec@;
        let ghost i = count as int;
        let ch = str_vec[count];
        match ch {
            '{' => {
                vec.push(Token::LeftBrace);
                count += 1;
                proof {
                    lemma_tokenize_step(
                        str_vec@,
                        i,
                        i + 1,
                        TokenModel::LeftBrace,
                        prev_vec,
                        vec@,
                    );
                }
            },
            '}' => {
                vec.push(Token::RightBrace);
                count += 1;
                proof {
                    lemma_tokenize_step(
                        str_vec@,
                        i,
                        i + 1,
                        TokenModel::RightBrace,
                        prev_vec,
                        vec@,
                    );
                }
            },
            '[' => {
                vec.push(Token::LeftBracket);
                count += 1;
                proof {
                    lemma_tokenize_step(
                        str_vec@,
                        i,
                        i + 1,
                        TokenModel::LeftBracket,
                        prev_vec,
                        vec@,
                    );
                }
            },
            ']' => {
                vec.push(Token::RightBracket);
                count += 1;
                proof {
                    lemma_tokenize_step(
                        str_vec@,
                        i,
                        i + 1,
                        TokenModel::RightBracket,
                        prev_vec,
                        vec@,
                    );
                }
            },
            ',' => {
                vec.push(Token::Comma);
                count += 1;
                proof {
                    lemma_tokenize_step(str_vec@, i, i + 1, TokenModel::Comma, prev_vec, vec@);
                }
            },
            ':' => {
                vec.push(Token::Colon);
                count += 1;
                proof {
                    lemma_tokenize_step(str_vec@, i, i + 1, TokenModel::Colon, prev_vec, vec@);
                }
            },
            '"' => {
                match distinguish_string(&str_vec, &mut count, &mut vec) {
                    Ok(_) => {
                        proof {
                            let j = find_quote(str_vec@, i + 1).unwrap();
                            lemma_find_quote_some(str_vec@, i + 1, j);
                            lemma_tokenize_step(
                                str_vec@,
                                i,
                                j + 1,
                                TokenModel::StringLiteral(str_vec@.subrange(i, j + 1)),
                                prev_vec,
                                vec@,
                            );
                        }
                    },
                    Err(e) => {
                        return Err(e);
                    },
                }
            },
            'f' => {
                match distinguish_false(&str_vec, &mut count, &mut vec) {
                    Ok(_) => {
                        proof {
                            lemma_tokenize_step(
                                str_vec@,
                                i,
                                i + 5,
                                TokenModel::BooleanLiteral(str_vec@.subrange(i, i + 5)),
                                prev_vec,
                                vec@,
                            );
                        }
                    },
                    Err(e) => {
                        return Err(e);
                    },
                }
            },
            't' => {
                match distinguish_true(&str_vec, &mut count, &mut vec) {
                    Ok(_) => {
                        proof {
                            lemma_tokenize_step(
                                str_vec@,
                                i,
                                i + 4,
                                TokenModel::BooleanLiteral(str_vec@.subrange(i, i + 4)),
                                prev_vec,
                                vec@,
                            );
                        }
                    },
                    Err(e) => {
                        return Err(e);
                    },
                }
            },
            'n' => {
                match distinguish_null(&str_vec, &mut count, &mut vec) {
                    Ok(_) => {
                        proof {
                            lemma_tokenize_step(
                                str_vec@,
                                i,
                                i + 4,
                                TokenModel::NullLiteral,
                                prev_vec,
                                vec@,
                            );
                        }
                    },
                    Err(e) => {
                        return Err(e);
                    },
                }
            },
            '-' | '0' | '1' | '2' | '3' | '4' | '5' | '6' | '7' | '8' | '9' => {
                distinguish_number(&str_vec, &mut count, &mut vec);
                proof {
                    let j = scan(str_vec@, i, NState::Start).0;
                    lemma_scan_bounds(str_vec@, i + 1, num_step_start(str_vec@[i]));
                    lemma_tokenize_step(
                        str_vec@,
                        i,
                        j,
                        TokenModel::NumberLiteral(str_vec@.subrange(i, j)),
                        prev_vec,
                        vec@,
                    );
                }
            },
            ' ' | '\t' | '\r' | '\n' => {
                consume_whitespace(&str_vec, &mut count);
                proof {
                    lemma_tokenize_ws_run(str_vec@, i);
                    lemma_tokenize_ws_run(str_vec@, i + 1);
                }
            },
            _ => {
                return Err(TokenizeError::InvalidCharacter);
            },
        }
    }
    proof {
        assert(tok_models(vec@) + Seq::<TokenModel>::empty() =~= tok_models(vec@));
    }
    Ok(vec)
}

/// The state after the first character of a number lexeme.
spec fn num_step_start(c: char) -> NState {
    num_step(NState::Start, c).unwrap()
}

/// True when the character sequence `t` occurs in `s` at position `i`.
pub open spec fn has_at(s: Seq<char>, i: int, t: Seq<char>) -> bool {
    &&& 0 <= i
    &&& i + t.len() <= s.len()
    &&& forall|k: int| 0 <= k < t.len() ==> s[i + k] == t[k]
}

/// An occurrence of a concatenation is an occurrence of each part.
pub proof fn lemma_has_at_split(s: Seq<char>, i: int, a: Seq<char>, b: Seq<char>)
    requires
        has_at(s, i, a + b),
    ensures
        has_at(s, i, a),
        has_at(s, i + a.len(), b),
{
    assert forall|k: int| 0 <= k < a.len() implies s[i + k] == a[k] by {
        assert((a + b)[k] == a[k]);
        assert(s[i + k] == (a + b)[k]);
    }
    assert forall|k: int| 0 <= k < b.len() implies s[i + a.len() + k] == b[k] by {
        assert((a + b)[a.len() + k] == b[k]);
        assert(s[i + (a.len() + k)] == (a + b)[a.len() + k]);
    }
}

/// The text of the keyword `true`.
pub open spec fn keyword_true() -> Seq<char> {
    seq!['t', 'r', 'u', 'e']
}

/// The text of the keyword `false`.
pub open spec fn keyword_false() -> Seq<char> {
    seq!['f', 'a', 'l', 's', 'e']
}

/// The text of the keyword `null`.
pub open spec fn keyword_null() -> Seq<char> {
    seq!['n', 'u', 'l', 'l']
}

/// A well-formed string lexeme: a quote, any run of non-quote
/// characters, and a closing quote.
pub open spec fn wf_string_text(t: Seq<char>) -> bool {
    &&& t.len() >= 2
    &&& t[0] == '"'
    &&& t[t.len() - 1] == '"'
    &&& forall|k: int| 1 <= k < t.len() - 1 ==> t[k] != '"'
}

/// A well-formed token: its carried text is a complete lexeme of its
/// kind. Every token the tokenizer emits is well-formed.
pub open spec fn wf_token(t: TokenModel) -> bool {
    match t {
        TokenModel::StringLiteral(x) => wf_string_text(x),
        TokenModel::NumberLiteral(x) => is_number_lexeme(x),
        TokenModel::BooleanLiteral(x) => x == keyword_true() || x == keyword_false(),
        _ => true,
    }
}

/// The first quote at or after `a` is the one at `b` when nothing
/// before `b` is a quote.
proof fn lemma_find_quote_exact(s: Seq<char>, a: int, b: int)
    requires
        0 <= a <= b < s.len(),
        s[b] == '"',
        forall|k: int| a <= k < b ==> s[k] != '"',
    ensures
        find_quote(s, a) == Some(b),
    decreases b - a,
{
    if a < b {
        lemma_find_quote_exact(s, a + 1, b);
    }
}

/// Tokenizing at a well-formed string lexeme yields its string token
/// and continues right after it.
pub proof fn lemma_tok_string_at(s: Seq<char>, i: int, t: Seq<char>)
    requires
        wf_string_text(t),
        has_at(s, i, t),
    ensures
        spec_tokenize(s, i) == prepend_token(
            TokenModel::StringLiteral(t),
            spec_tokenize(s, i + t.len()),
        ),
{
    let j = i + t.len() - 1;
    assert(s[i] == t[0]);
    assert(s[j] == t[t.len() - 1]);
    assert forall|k: int| i + 1 <= k < j implies s[k] != '"' by {
        assert(s[i + (k - i)] == t[k - i]);
    }
    lemma_find_quote_exact(s, i + 1, j);
    assert(s.subrange(i, j + 1) =~= t);
}

/// Tokenizing at the keyword `true` yields its boolean token and
/// continues right after it.
pub proof fn lemma_tok_true_at(s: Seq<char>, i: int)
    requires
        has_at(s, i, keyword_true()),
    ensures
        spec_tokenize(s, i) == prepend_token(
            TokenModel::BooleanLiteral(keyword_true()),
            spec_tokenize(s, i + 4),
        ),
{
    assert(s[i] == 't' && s[i + 1] == 'r' && s[i + 2] == 'u' && s[i + 3] == 'e');
    assert(s.subrange(i, i + 4) =~= keyword_true());
}

/// Tokenizing at the keyword `false` yields its boolean token and
/// continues right after it.
pub proof fn lemma_tok_false_at(s: Seq<char>, i: int)
    requires
        has_at(s, i, keyword_false()),
    ensures
        spec_tokenize(s, i) == prepend_token(
            TokenModel::BooleanLiteral(keyword_false()),
            spec_tokenize(s, i + 5),
        ),
{
    assert(s[i] == 'f' && s[i + 1] == 'a' && s[i + 2] == 'l' && s[i + 3] == 's' && s[i + 4]
        == 'e');
    assert(s.subrange(i, i + 5) =~= keyword_false());
}

/// Tokenizing at the keyword `null` yields the null token and
/// continues right after it.
pub proof fn lemma_tok_null_at(s: Seq<char>, i: int)
    requires
        has_at(s, i, keyword_null()),
    ensures
        spec_tokenize(s, i) == prepend_token(TokenModel::NullLiteral, spec_tokenize(s, i + 4)),
{
    assert(s[i] == 'n' && s[i + 1] == 'u' && s[i + 2] == 'l' && s[i + 3] == 'l');
}

/// Tokenizing at a number lexeme whose follower (if any) continues no
/// number yields its number token and continues right after it.
pub proof fn lemma_tok_number_at(s: Seq<char>, i: int, t: Seq<char>)
    requires
        is_number_lexeme(t),
        has_at(s, i, t),
        i + t.len() == s.len() || no_number_step(s[i + t.len()]),
    ensures
        spec_tokenize(s, i) == prepend_token(
            TokenModel::NumberLiteral(t),
            spec_tokenize(s, i + t.len()),
        ),
{
    assert(s.subrange(i, i + t.len()) =~= t);
    lemma_scan_of_run(s, i, i + t.len(), NState::Start);
    assert(num_step(NState::Start, t[0]) is Some);
    assert(s[i] == t[0]);
}

/// Prepending a well-formed token keeps every token well-formed.
proof fn lemma_wf_prepend(t0: TokenModel, r: Result<Seq<TokenModel>, TokenizeError>)
    requires
        wf_token(t0),
        r matches Ok(rest) ==> forall|k: int| 0 <= k < rest.len() ==> wf_token(#[trigger] rest[k]),
    ensures
        prepend_token(t0, r) matches Ok(ts) ==> forall|k: int|
            0 <= k < ts.len() ==> wf_token(#[trigger] ts[k]),
{
    match r {
        Ok(rest) => {
            let ts = seq![t0] + rest;
            assert forall|k: int| 0 <= k < ts.len() implies wf_token(ts[k]) by {
                if k > 0 {
                    assert(wf_token(rest[k - 1]));
                }
            }
        },
        Err(_) => {
        },
    }
}

/// Every token a successful tokenizing yields is well-formed: string
/// tokens are complete quoted lexemes, number tokens are valid number
/// lexemes, boolean tokens are exactly `true` or `false`.
pub proof fn lemma_tokenize_tokens_wf(s: Seq<char>, i: int)
    requires
        0 <= i <= s.len(),
    ensures
        spec_tokenize(s, i) matches Ok(ts) ==> forall|k: int|
            0 <= k < ts.len() ==> wf_token(#[trigger] ts[k]),
    decreases s.len() - i,
{
    if i < s.len() {
        let c = s[i];
        if c == '{' {
            lemma_tokenize_tokens_wf(s, i + 1);
            lemma_wf_prepend(TokenModel::LeftBrace, spec_tokenize(s, i + 1));
        } else if c == '}' {
            lemma_tokenize_tokens_wf(s, i + 1);
            lemma_wf_prepend(TokenModel::RightBrace, spec_tokenize(s, i + 1));
        } else if c == '[' {
            lemma_tokenize_tokens_wf(s, i + 1);
            lemma_wf_prepend(TokenModel::LeftBracket, spec_tokenize(s, i + 1));
        } else if c == ']' {
            lemma_tokenize_tokens_wf(s, i + 1);
            lemma_wf_prepend(TokenModel::RightBracket, spec_tokenize(s, i + 1));
        } else if c == ',' {
            lemma_tokenize_tokens_wf(s, i + 1);
            lemma_wf_prepend(TokenModel::Comma, spec_tokenize(s, i + 1));
        } else if c == ':' {
            lemma_tokenize_tokens_wf(s, i + 1);
            lemma_wf_prepend(TokenModel::Colon, spec_tokenize(s, i + 1));
        } else if c == '"' {
            match find_quote(s, i + 1) {
                Some(j) => {
                    lemma_find_quote_some(s, i + 1, j);
                    lemma_tokenize_tokens_wf(s, j + 1);
                    let t = s.subrange(i, j + 1);
                    assert(wf_string_text(t)) by {
                        assert(t[0] == s[i]);
                        assert(t[t.len() - 1] == s[j]);
                        assert forall|k: int| 1 <= k < t.len() - 1 implies t[k] != '"' by {
                            assert(t[k] == s[i + k]);
                        }
                    }
                    lemma_wf_prepend(TokenModel::StringLiteral(t), spec_tokenize(s, j + 1));
                },
                None => {
                },
            }
        } else if c == 'f' {
            if i + 5 <= s.len() && s[i + 1] == 'a' && s[i + 2] == 'l' && s[i + 3] == 's' && s[i
                + 4] == 'e' {
                lemma_tokenize_tokens_wf(s, i + 5);
                assert(s.subrange(i, i + 5) =~= keyword_false());
                lemma_wf_prepend(
                    TokenModel::BooleanLiteral(s.subrange(i, i + 5)),
                    spec_tokenize(s, i + 5),
                );
            }
        } else if c == 't' {
            if i + 4 <= s.len() && s[i + 1] == 'r' && s[i + 2] == 'u' && s[i + 3] == 'e' {
                lemma_tokenize_tokens_wf(s, i + 4);
                assert(s.subrange(i, i + 4) =~= keyword_true());
                lemma_wf_prepend(
                    TokenModel::BooleanLiteral(s.subrange(i, i + 4)),
                    spec_tokenize(s, i + 4),
                );
            }
        } else if c == 'n' {
            if i + 4 <= s.len() && s[i + 1] == 'u' && s[i + 2] == 'l' && s[i + 3] == 'l' {
                lemma_tokenize_tokens_wf(s, i + 4);
                lemma_wf_prepend(TokenModel::NullLiteral, spec_tokenize(s, i + 4));
            }
        } else if c == '-' || is_digit_char(c) {
            let j = scan(s, i, NState::Start).0;
            lemma_scan_bounds(s, i, NState::Start);
            if i < j <= s.len() {
                lemma_tokenize_tokens_wf(s, j);
                lemma_scan_consumed_valid(s, i, NState::Start);
                let t = s.subrange(i, j);
                assert(is_number_lexeme(t));
                lemma_wf_prepend(TokenModel::NumberLiteral(t), spec_tokenize(s, j));
            }
        } else if is_ws_char(c) {
            lemma_tokenize_tokens_wf(s, i + 1);
        }
    }
}

/// One lexical unit of input as a writer lays it down: a run of
/// whitespace, or the text of one token.
pub enum Lexeme {
    Whitespace(Seq<char>),
    Item(TokenModel),
}

/// The text of a token, as the tokenizer matches it.
pub open spec fn token_text(t: TokenModel) -> Seq<char> {
    match t {
        TokenModel::LeftBrace => seq!['{'],
        TokenModel::RightBrace => seq!['}'],
        TokenModel::LeftBracket => seq!['['],
        TokenModel::RightBracket => seq![']'],
        TokenModel::Comma => seq![','],
        TokenModel::Colon => seq![':'],
        TokenModel::StringLiteral(x) => x,
        TokenModel::NumberLiteral(x) => x,
        TokenModel::BooleanLiteral(x) => x,
        TokenModel::NullLiteral => keyword_null(),
    }
}

/// The text of one lexeme.
pub open spec fn lexeme_text(lx: Lexeme) -> Seq<char> {
    match lx {
        Lexeme::Whitespace(w) => w,
        Lexeme::Item(t) => token_text(t),
    }
}

/// A well-formed lexeme: a non-empty whitespace run, or a well-formed
/// token.
pub open spec fn wf_lexeme(lx: Lexeme) -> bool {
    match lx {
        Lexeme::Whitespace(w) => w.len() >= 1 && (forall|k: int|
            0 <= k < w.len() ==> is_ws_char(w[k])),
        Lexeme::Item(t) => wf_token(t),
    }
}

/// A well-formed lexeme sequence: every lexeme well-formed, and no
/// number lexeme directly followed by another number lexeme (the
/// scanner's longest match would merge the two).
pub open spec fn wf_lexemes(ls: Seq<Lexeme>) -> bool {
    forall|k: int|
        0 <= k < ls.len() ==> wf_lexeme(#[trigger] ls[k]) && ((k + 1 < ls.len() && ls[k] matches
            Lexeme::Item(TokenModel::NumberLiteral(_))) ==> !(ls[k + 1] matches Lexeme::Item(
            TokenModel::NumberLiteral(_),
        )))
}

/// The concatenated text of the lexemes from position `i` on.
pub open spec fn lexemes_text(ls: Seq<Lexeme>, i: int) -> Seq<char>
    decreases ls.len() - i,
{
    if 0 <= i < ls.len() {
        lexeme_text(ls[i]) + lexemes_text(ls, i + 1)
    } else {
        Seq::empty()
    }
}

/// The tokens of the lexemes from position `i` on: one per
/// non-whitespace lexeme, in order.
pub open spec fn lexeme_tokens(ls: Seq<Lexeme>, i: int) -> Seq<TokenModel>
    decreases ls.len() - i,
{
    if 0 <= i < ls.len() {
        match ls[i] {
            Lexeme::Whitespace(_) => lexeme_tokens(ls, i + 1),
            Lexeme::Item(t) => seq![t] + lexeme_tokens(ls, i + 1),
        }
    } else {
        Seq::empty()
    }
}

/// Tokenizing from the start of a whitespace region is tokenizing from
/// its end.
proof fn lemma_tok_skip_ws(s: Seq<char>, i: int, j: int)
    requires
        0 <= i <= j <= s.len(),
        forall|k: int| i <= k < j ==> is_ws_char(#[trigger] s[k]),
    ensures
        spec_tokenize(s, i) == spec_tokenize(s, j),
    decreases j - i,
{
    if i < j {
        lemma_tok_skip_ws(s, i + 1, j);
    }
}

/// Tokenizing an input laid down as well-formed lexemes, from the
/// start of any tail of the lexeme sequence to the end of the input,
/// yields exactly its tokens.
proof fn lemma_tokenize_lexemes_at(ls: Seq<Lexeme>, li: int, s: Seq<char>, i: int)
    requires
        wf_lexemes(ls),
        0 <= li <= ls.len(),
        has_at(s, i, lexemes_text(ls, li)),
        i + lexemes_text(ls, li).len() == s.len(),
    ensures
        spec_tokenize(s, i) == Ok::<Seq<TokenModel>, TokenizeError>(lexeme_tokens(ls, li)),
    decreases ls.len() - li,
{
    if li < ls.len() {
        let tx = lexeme_text(ls[li]);
        let rest = lexemes_text(ls, li + 1);
        lemma_has_at_split(s, i, tx, rest);
        assert(wf_lexeme(ls[li]));
        let j = i + tx.len();
        lemma_tokenize_lexemes_at(ls, li + 1, s, j);
        match ls[li] {
            Lexeme::Whitespace(w) => {
                assert forall|k: int| i <= k < j implies is_ws_char(s[k]) by {
                    assert(s[i + (k - i)] == w[k - i]);
                }
                lemma_tok_skip_ws(s, i, j);
            },
            Lexeme::Item(t) => {
                match t {
                    TokenModel::StringLiteral(x) => {
                        lemma_tok_string_at(s, i, x);
                    },
                    TokenModel::NumberLiteral(x) => {
                        if j < s.len() {
                            let nx = lexeme_text(ls[li + 1]);
                            assert(wf_lexeme(ls[li + 1]));
                            assert(!(ls[li + 1] matches Lexeme::Item(
                                TokenModel::NumberLiteral(_),
                            )));
                            assert(nx.len() >= 1);
                            assert(rest == nx + lexemes_text(ls, li + 2));
                            assert(s[j + 0] == rest[0]);
                            assert(rest[0] == nx[0]);
                            assert(no_number_step(s[j]));
                        }
                        lemma_tok_number_at(s, i, x);
                    },
                    TokenModel::BooleanLiteral(x) => {
                        if x == keyword_true() {
                            lemma_tok_true_at(s, i);
                        } else {
                            lemma_tok_false_at(s, i);
                        }
                    },
                    TokenModel::NullLiteral => {
                        lemma_tok_null_at(s, i);
                    },
                    _ => {
                        assert(s[i + 0] == tx[0]);
                    },
                }
            },
        }
    }
}

/// One token per lexeme, in left-to-right order: any input that is a
/// well-formed sequence of structural characters, whitespace runs,
/// quoted strings, the keywords `true`, `false` and `null`, and number
/// lexemes (with no two number lexemes adjacent) tokenizes
/// successfully, to exactly the tokens of its non-whitespace lexemes.
pub proof fn lemma_tokenize_lexeme_sequence(ls: Seq<Lexeme>)
    requires
        wf_lexemes(ls),
    ensures
        spec_tokenize(lexemes_text(ls, 0), 0) == Ok::<Seq<TokenModel>, TokenizeError>(
            lexeme_tokens(ls, 0),
        ),
{
    let s = lexemes_text(ls, 0);
    assert(has_at(s, 0, s));
    lemma_tokenize_lexemes_at(ls, 0, s, 0);
}

} // verus!
