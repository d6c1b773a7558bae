//! The scanner for JSON numeric literals: a finite-state machine that
//! consumes the longest run of characters forming a number lexeme
//! (sign, leading-zero, fractional and exponent forms) starting at a
//! cursor position.

use crate::text::push_char;
use vstd::prelude::*;

verus! {

/// The states of the number scanner.
///
/// `Start` is the state before any character is consumed; `Sign` is the
/// state right after a `+` or `-` that follows an `e`/`E`.
#[derive(Debug, Clone, Copy, PartialEq, Eq, Structural)]
pub enum NState {
    Start,
    Minus,
    Zero,
    DigitOneToNine,
    Digit,
    Dot,
    Exponent,
    Sign,
}

/// True for the decimal digit characters `0`..`9`.
pub open spec fn is_digit_char(c: char) -> bool {
    c == '0' || c == '1' || c == '2' || c == '3' || c == '4' || c == '5' || c == '6' || c == '7'
        || c == '8' || c == '9'
}

/// The transition table of the number scanner: from state `st`, consuming
/// character `c` either reaches a new state or stops the scan (`None`).
pub open spec fn num_step(st: NState, c: char) -> Option<NState> {
    match st {
        NState::Start => {
            if c == '-' {
                Some(NState::Minus)
            } else if c == '0' {
                Some(NState::Zero)
            } else if is_digit_char(c) {
                Some(NState::DigitOneToNine)
            } else {
                None
            }
        },
        NState::Minus => {
            if c == '0' {
                Some(NState::Zero)
            } else if is_digit_char(c) {
                Some(NState::DigitOneToNine)
            } else {
                None
            }
        },
        NState::Zero => {
            if c == '.' {
                Some(NState::Dot)
            } else if c == 'e' || c == 'E' {
                Some(NState::Exponent)
            } else {
                None
            }
        },
        NState::DigitOneToNine => {
            if is_digit_char(c) {
                Some(NState::Digit)
            } else if c == '.' {
                Some(NState::Dot)
            } else if c == 'e' || c == 'E' {
                Some(NState::Exponent)
            } else {
                None
            }
        },
        NState::Digit => {
            if is_digit_char(c) {
                Some(NState::Digit)
            } else if c == '.' {
                Some(NState::Dot)
            } else if c == 'e' || c == 'E' {
                Some(NState::Exponent)
            } else {
                None
            }
        },
        NState::Dot => {
            if is_digit_char(c) {
                Some(NState::Digit)
            } else {
                None
            }
        },
        NState::Exponent => {
            if c == '-' || c == '+' {
                Some(NState::Sign)
            } else if is_digit_char(c) {
                Some(NState::Digit)
            } else {
                None
            }
        },
        NState::Sign => {
            if is_digit_char(c) {
                Some(NState::Digit)
            } else {
                None
            }
        },
    }
}

/// Where a scan that starts at position `i` of `s` in state `st` stops,
/// and the state it stops in: the scan consumes characters while the
/// transition table allows, and halts at the first character with no
/// valid transition or at the end of the input.
pub open spec fn scan(s: Seq<char>, i: int, st: NState) -> (int, NState)
    decreases s.len() - i,
{
    if 0 <= i < s.len() {
        match num_step(st, s[i]) {
            Some(st2) => scan(s, i + 1, st2),
            None => (i, st),
        }
    } else {
        (i, st)
    }
}

/// True when every character of `s` from position `i` on has a valid
/// transition, starting in state `st`.
pub open spec fn valid_run_from(s: Seq<char>, i: int, st: NState) -> bool
    decreases s.len() - i,
{
    if i < s.len() {
        match num_step(st, s[i]) {
            Some(st2) => valid_run_from(s, i + 1, st2),
            None => false,
        }
    } else {
        true
    }
}

/// A valid number lexeme: a non-empty character sequence that the
/// transition table consumes in full from the start state.
pub open spec fn is_number_lexeme(s: Seq<char>) -> bool {
    s.len() > 0 && valid_run_from(s, 0, NState::Start)
}

/// A scan started anywhere inside a run of characters that the table
/// accepts in full consumes the rest of that run.
proof fn lemma_scan_consumes_run(s: Seq<char>, i: int, st: NState)
    requires
        0 <= i <= s.len(),
        valid_run_from(s, i, st),
    ensures
        scan(s, i, st).0 == s.len(),
    decreases s.len() - i,
{
    if i < s.len() {
        lemma_scan_consumes_run(s, i + 1, num_step(st, s[i]).unwrap());
    }
}

/// For every valid number lexeme `s`, a scan over exactly that sequence
/// consumes all of it: the matched text is `s` itself and the cursor
/// advances by the lexeme's length.
pub proof fn lemma_scan_number_exact(s: Seq<char>)
    requires
        is_number_lexeme(s),
    ensures
        scan(s, 0, NState::Start).0 == s.len(),
        s.subrange(0, scan(s, 0, NState::Start).0) == s,
{
    lemma_scan_consumes_run(s, 0, NState::Start);
    assert(s.subrange(0, s.len() as int) =~= s);
}

/// The stop position of a scan never precedes its start position and
/// never passes the end of the input.
pub proof fn lemma_scan_bounds(s: Seq<char>, i: int, st: NState)
    requires
        0 <= i <= s.len(),
    ensures
        i <= scan(s, i, st).0 <= s.len(),
    decreases s.len() - i,
{
    if i < s.len() && num_step(st, s[i]) is Some {
        lemma_scan_bounds(s, i + 1, num_step(st, s[i]).unwrap());
    }
}

/// True for a character that continues no number lexeme: the scanner
/// stops at it from every state.
pub open spec fn no_number_step(c: char) -> bool {
    !(is_digit_char(c) || c == '-' || c == '+' || c == '.' || c == 'e' || c == 'E')
}

/// Restricting the run predicate to the tail it speaks of changes
/// nothing.
proof fn lemma_run_shift(t: Seq<char>, j: int, st: NState)
    requires
        0 <= j <= t.len(),
    ensures
        valid_run_from(t, j, st) == valid_run_from(t.subrange(j, t.len() as int), 0, st),
    decreases t.len() - j,
{
    let sub = t.subrange(j, t.len() as int);
    if j < t.len() {
        match num_step(st, t[j]) {
            Some(st2) => {
                lemma_run_shift(t, j + 1, st2);
                lemma_run_shift(sub, 1, st2);
                assert(sub.subrange(1, sub.len() as int) =~= t.subrange(j + 1, t.len() as int));
            },
            None => {
            },
        }
    }
}

/// The characters a scan consumes form a valid run.
pub proof fn lemma_scan_consumed_valid(s: Seq<char>, i: int, st: NState)
    requires
        0 <= i <= s.len(),
    ensures
        valid_run_from(s.subrange(i, scan(s, i, st).0), 0, st),
    decreases s.len() - i,
{
    lemma_scan_bounds(s, i, st);
    let stop = scan(s, i, st).0;
    let sub = s.subrange(i, stop);
    if i < s.len() && num_step(st, s[i]) is Some {
        let st2 = num_step(st, s[i]).unwrap();
        lemma_scan_consumed_valid(s, i + 1, st2);
        lemma_scan_bounds(s, i + 1, st2);
        assert(s.subrange(i + 1, stop) =~= sub.subrange(1, sub.len() as int));
        lemma_run_shift(sub, 1, st2);
    } else {
        assert(sub =~= Seq::<char>::empty());
    }
}

/// A scan over a region that forms a valid run, followed by a
/// character that continues no number (or by the end of the input),
/// stops exactly at the region's end.
pub proof fn lemma_scan_of_run(s: Seq<char>, i: int, j: int, st: NState)
    requires
        0 <= i <= j <= s.len(),
        valid_run_from(s.subrange(i, j), 0, st),
        j == s.len() || no_number_step(s[j]),
    ensures
        scan(s, i, st).0 == j,
    decreases j - i,
{
    let sub = s.subrange(i, j);
    if i == j {
        if j < s.len() {
            assert(num_step(st, s[j]) is None);
        }
    } else {
        let st2 = num_step(st, sub[0]).unwrap();
        lemma_run_shift(sub, 1, st2);
        assert(sub.subrange(1, sub.len() as int) =~= s.subrange(i + 1, j));
        lemma_scan_of_run(s, i + 1, j, st2);
    }
}

/// The scanner for number lexemes. It accumulates matched characters in
/// `buf` and tracks the current state of the transition table in `state`.
pub struct NumberTokenizer {
    pub buf: String,
    pub state: NState,
}

impl NumberTokenizer {
    /// A fresh scanner: empty buffer, start state.
    pub fn new() -> (r: NumberTokenizer)
        ensures
            r.buf@ == Seq::<char>::empty(),
            r.state == NState::Start,
    {
        NumberTokenizer { buf: String::new(), state: NState::Start }
    }

    /// Scans the longest run of characters from `*count` on that the
    /// transition table accepts, appends it to the buffer, advances the
    /// cursor past exactly the consumed characters, and returns the
    /// buffer's contents.
    pub fn tokenize(&mut self, str_vec: &Vec<char>, count: &mut usize) -> (r: String)
        requires
            *old(count) <= str_vec@.len(),
        ensures
            *final(count) == scan(str_vec@, *old(count) as int, old(self).state).0,
            final(self).state == scan(str_vec@, *old(count) as int, old(self).state).1,
            final(self).buf@ == old(self).buf@ + str_vec@.subrange(
                *old(count) as int,
                *final(count) as int,
            ),
            r@ == final(self).buf@,
            *old(count) <= *final(count) <= str_vec@.len(),
    {
        loop
            invariant
                *count <= str_vec@.len(),
                scan(str_vec@, *count as int, self.state) == scan(
                    str_vec@,
                    *old(count) as int,
                    old(self).state,
                ),
                self.buf@ == old(self).buf@ + str_vec@.subrange(*old(count) as int, *count as int),
                *old(count) <= *count,
            ensures
                *count == scan(str_vec@, *old(count) as int, old(self).state).0,
                self.state == scan(str_vec@, *old(count) as int, old(self).state).1,
                self.buf@ == old(self).buf@ + str_vec@.subrange(*old(count) as int, *count as int),
                *old(count) <= *count <= str_vec@.len(),
            decreases str_vec@.len() - *count,
        {
            if *count >= str_vec.len() {
                proof {
                    assert(scan(str_vec@, *count as int, self.state) == (
                        *count as int,
                        self.state,
                    ));
                }
                break ;
            }
            let ch = str_vec[*count];
            let ghost prev = *self;
            let ghost prev_count = *count;
            if self.is_minus(ch, count) || self.is_zero(ch, count) || self.is_digit_one_to_nine(
                ch,
                count,
            ) || self.is_digit(ch, count) || self.is_dot(ch, count) || self.is_exponential(
                ch,
                count,
            ) || self.is_plus(ch, count) {
                proof {
                    assert(str_vec@.subrange(*old(count) as int, *count as int) == str_vec@.subrange(
                        *old(count) as int,
                        prev_count as int,
                    ) + str_vec@.subrange(prev_count as int, *count as int));
                    assert(str_vec@.subrange(prev_count as int, *count as int) =~= seq![ch]);
                }
            } else {
                proof {
                    assert(num_step(self.state, ch) is None);
                    assert(scan(str_vec@, *count as int, self.state) == (
                        *count as int,
                        self.state,
                    ));
                }
                break ;
            }
        }
        self.buf.clone()
    }

    /// Consumes `-` from the start state (a number's sign) or right after
    /// an `e`/`E` (an exponent's sign); otherwise changes nothing.
    fn is_minus(&mut self, ch: char, count: &mut usize) -> (r: bool)
        requires
            *old(count) < usize::MAX,
        ensures
            r == (ch == '-' && (old(self).state == NState::Start || old(self).state
                == NState::Exponent)),
            r ==> num_step(old(self).state, ch) == Some(final(self).state) && final(self).buf@
                == old(self).buf@.push(ch) && *final(count) == *old(count) + 1,
            !r ==> *final(self) == *old(self) && *final(count) == *old(count),
    {
        if ch == '-' && (matches!(self.state, NState::Start) || matches!(
            self.state,
            NState::Exponent,
        )) {
            let to = if matches!(self.state, NState::Start) {
                NState::Minus
            } else {
                NState::Sign
            };
            push_char(&mut self.buf, ch);
            *count += 1;
            self.state = to;
            true
        } else {
            false
        }
    }

    /// Consumes `+` right after an `e`/`E` (an exponent's sign);
    /// otherwise changes nothing.
    fn is_plus(&mut self, ch: char, count: &mut usize) -> (r: bool)
        requires
            *old(count) < usize::MAX,
        ensures
            r == (ch == '+' && old(self).state == NState::Exponent),
            r ==> num_step(old(self).state, ch) == Some(final(self).state) && final(self).buf@
                == old(self).buf@.push(ch) && *final(count) == *old(count) + 1,
            !r ==> *final(self) == *old(self) && *final(count) == *old(count),
    {
        if ch == '+' && matches!(self.state, NState::Exponent) {
            push_char(&mut self.buf, ch);
            *count += 1;
            self.state = NState::Sign;
            true
        } else {
            false
        }
    }

    /// Consumes a digit `1`..`9` that starts a number's integer part
    /// (from the start state or after a leading `-`); otherwise changes
    /// nothing.
    fn is_digit_one_to_nine(&mut self, ch: char, count: &mut usize) -> (r: bool)
        requires
            *old(count) < usize::MAX,
        ensures
            r == (is_digit_char(ch) && ch != '0' && (old(self).state == NState::Start || old(
                self,
            ).state == NState::Minus)),
            r ==> num_step(old(self).state, ch) == Some(final(self).state) && final(self).buf@
                == old(self).buf@.push(ch) && *final(count) == *old(count) + 1,
            !r ==> *final(self) == *old(self) && *final(count) == *old(count),
    {
        match ch {
            '1' | '2' | '3' | '4' | '5' | '6' | '7' | '8' | '9' => {
                if matches!(self.state, NState::Start) || matches!(self.state, NState::Minus) {
                    push_char(&mut self.buf, ch);
                    *count += 1;
                    self.state = NState::DigitOneToNine;
                    true
                } else {
                    false
                }
            },
            _ => false,
        }
    }

    /// Consumes any digit inside a number's digit runs: after the first
    /// integer digit, in the fraction, or in the exponent; otherwise
    /// changes nothing.
    fn is_digit(&mut self, ch: char, count: &mut usize) -> (r: bool)
        requires
            *old(count) < usize::MAX,
        ensures
            r == (is_digit_char(ch) && (old(self).state == NState::DigitOneToNine || old(
                self,
            ).state == NState::Digit || old(self).state == NState::Dot || old(self).state
                == NState::Sign || old(self).state == NState::Exponent)),
            r ==> num_step(old(self).state, ch) == Some(final(self).state) && final(self).buf@
                == old(self).buf@.push(ch) && *final(count) == *old(count) + 1,
            !r ==> *final(self) == *old(self) && *final(count) == *old(count),
    {
        match ch {
            '0' | '1' | '2' | '3' | '4' | '5' | '6' | '7' | '8' | '9' => {
                match self.state {
                    NState::DigitOneToNine | NState::Digit | NState::Dot | NState::Sign
                        | NState::Exponent => {
                        push_char(&mut self.buf, ch);
                        *count += 1;
                        self.state = NState::Digit;
                        true
                    },
                    _ => false,
                }
            },
            _ => false,
        }
    }

    /// Consumes the digit `0` where it opens a number's integer part
    /// (from the start state or after a leading `-`); otherwise changes
    /// nothing.
    fn is_zero(&mut self, ch: char, count: &mut usize) -> (r: bool)
        requires
            *old(count) < usize::MAX,
        ensures
            r == (ch == '0' && (old(self).state == NState::Start || old(self).state
                == NState::Minus)),
            r ==> num_step(old(self).state, ch) == Some(final(self).state) && final(self).buf@
                == old(self).buf@.push(ch) && *final(count) == *old(count) + 1,
            !r ==> *final(self) == *old(self) && *final(count) == *old(count),
    {
        if ch == '0' && (matches!(self.state, NState::Start) || matches!(self.state, NState::Minus))
            {
            push_char(&mut self.buf, ch);
            *count += 1;
            self.state = NState::Zero;
            true
        } else {
            false
        }
    }

    /// Consumes the decimal point after an integer part; otherwise
    /// changes nothing.
    fn is_dot(&mut self, ch: char, count: &mut usize) -> (r: bool)
        requires
            *old(count) < usize::MAX,
        ensures
            r == (ch == '.' && (old(self).state == NState::DigitOneToNine || old(self).state
                == NState::Digit || old(self).state == NState::Zero)),
            r ==> num_step(old(self).state, ch) == Some(final(self).state) && final(self).buf@
                == old(self).buf@.push(ch) && *final(count) == *old(count) + 1,
            !r ==> *final(self) == *old(self) && *final(count) == *old(count),
    {
        if ch == '.' {
            match self.state {
                NState::DigitOneToNine | NState::Digit | NState::Zero => {
                    push_char(&mut self.buf, ch);
                    *count += 1;
                    self.state = NState::Dot;
                    true
                },
                _ => false,
            }
        } else {
            false
        }
    }

    /// Consumes an `e`/`E` that opens an exponent after an integer or
    /// fractional part; otherwise changes nothing.
    fn is_exponential(&mut self, ch: char, count: &mut usize) -> (r: bool)
        requires
            *old(count) < usize::MAX,
        ensures
            r == ((ch == 'e' || ch == 'E') && (old(self).state == NState::DigitOneToNine || old(
                self,
            ).state == NState::Digit || old(self).state == NState::Zero)),
            r ==> num_step(old(self).state, ch) == Some(final(self).state) && final(self).buf@
                == old(self).buf@.push(ch) && *final(count) == *old(count) + 1,
            !r ==> *final(self) == *old(self) && *final(count) == *old(count),
    {
        if ch == 'e' || ch == 'E' {
            match self.state {
                NState::DigitOneToNine | NState::Digit | NState::Zero => {
                    push_char(&mut self.buf, ch);
                    *count += 1;
                    self.state = NState::Exponent;
                    true
                },
                _ => false,
            }
        } else {
            false
        }
    }
}

} // verus!
