//! A byte-level automaton that splits input into tokens.

use vstd::prelude::*;
use crate::flagrc::{Token, WordView, push_lit, push_var};

verus! {

/// Line feed.
pub const LF: u8 = 0x0a;
/// Carriage return.
pub const CR: u8 = 0x0d;
/// `\`.
pub const BACKSLASH: u8 = 0x5c;
/// `'`.
pub const SINGLE_QUOTE: u8 = 0x27;
/// `"`.
pub const DOUBLE_QUOTE: u8 = 0x22;
/// `$`.
pub const DOLLAR: u8 = 0x24;
/// `_`.
pub const UNDERSCORE: u8 = 0x5f;

/// `u8::is_ascii_whitespace`: space, tab, line feed, form feed or carriage return.
pub open spec fn is_space(b: u8) -> bool {
    b == 0x20 || b == 0x09 || b == LF || b == 0x0c || b == CR
}

/// An ASCII letter or digit, or an underscore: a byte of a variable name.
pub open spec fn is_name(b: u8) -> bool {
    (0x30 <= b <= 0x39) || (0x41 <= b <= 0x5a) || (0x61 <= b <= 0x7a) || b == UNDERSCORE
}

/// Decides `is_space`.
pub fn is_ascii_whitespace(b: u8) -> (r: bool)
    ensures
        r == is_space(b),
{
    b == 0x20 || b == 0x09 || b == LF || b == 0x0c || b == CR
}

/// Decides `is_name`.
pub fn is_name_byte(b: u8) -> (r: bool)
    ensures
        r == is_name(b),
{
    (0x30 <= b && b <= 0x39) || (0x41 <= b && b <= 0x5a) || (0x61 <= b && b <= 0x7a) || b == UNDERSCORE
}

/// The states of the automaton.
#[derive(Clone, Copy, Debug, PartialEq, Eq)]
pub enum State {
    /// Skipping white space before a token.
    FindNextNonAsciiWhiteSpace,
    /// Found a carriage return outside quotes.
    CarriageReturn,
    /// Inside a token, outside quotes.
    NoQuote,
    /// Found a backslash outside quotes.
    NoQuoteEscape,
    /// Found a dollar sign outside quotes.
    NoQuoteVarStart,
    /// Inside a variable name outside quotes.
    NoQuoteVar,
    /// Inside single quotes.
    InSingleQuote,
    /// Inside double quotes.
    InDoubleQuote,
    /// Found a backslash inside double quotes.
    InDoubleQuoteEscape,
    /// Found a dollar sign inside double quotes.
    InDoubleQuoteVarStart,
    /// Inside a variable name inside double quotes.
    InDoubleQuoteVar,
}

/// What to do with the input after a transition.
#[derive(Clone, Copy, Debug, PartialEq, Eq)]
pub enum Action {
    /// Keep the byte for the next state.
    LeftOver,
    /// Consume the byte.
    NextByte,
    /// Consume the byte; the token is complete.
    Complete,
}

/// A dollar sign followed by a byte that cannot start a variable name: the
/// automaton has no transition there.
pub open spec fn stuck(s: State, b: u8) -> bool {
    (s is NoQuoteVarStart || s is InDoubleQuoteVarStart) && !is_name(b)
}

/// The next state and the action on byte `b`.
pub open spec fn next_state(s: State, b: u8) -> (State, Action) {
    match s {
        State::FindNextNonAsciiWhiteSpace => if is_space(b) {
            (State::FindNextNonAsciiWhiteSpace, Action::NextByte)
        } else {
            (State::NoQuote, Action::LeftOver)
        },
        State::CarriageReturn => if b == LF {
            (State::FindNextNonAsciiWhiteSpace, Action::Complete)
        } else {
            (State::NoQuote, Action::NextByte)
        },
        State::NoQuote => if b == CR {
            (State::CarriageReturn, Action::NextByte)
        } else if is_space(b) {
            (State::FindNextNonAsciiWhiteSpace, Action::Complete)
        } else if b == BACKSLASH {
            (State::NoQuoteEscape, Action::NextByte)
        } else if b == SINGLE_QUOTE {
            (State::InSingleQuote, Action::NextByte)
        } else if b == DOUBLE_QUOTE {
            (State::InDoubleQuote, Action::NextByte)
        } else if b == DOLLAR {
            (State::NoQuoteVarStart, Action::NextByte)
        } else {
            (State::NoQuote, Action::NextByte)
        },
        State::NoQuoteEscape => if b == CR || b == LF {
            (State::FindNextNonAsciiWhiteSpace, Action::NextByte)
        } else {
            (State::NoQuote, Action::NextByte)
        },
        State::NoQuoteVarStart => (State::NoQuoteVar, Action::LeftOver),
        State::NoQuoteVar => if b == SINGLE_QUOTE {
            (State::InSingleQuote, Action::NextByte)
        } else if b == DOUBLE_QUOTE {
            (State::InDoubleQuote, Action::NextByte)
        } else if b == BACKSLASH {
            (State::NoQuote, Action::NextByte)
        } else if is_space(b) {
            (State::FindNextNonAsciiWhiteSpace, Action::Complete)
        } else if is_name(b) {
            (State::NoQuoteVar, Action::NextByte)
        } else {
            (State::NoQuote, Action::NextByte)
        },
        State::InSingleQuote => if b == SINGLE_QUOTE {
            (State::NoQuote, Action::NextByte)
        } else {
            (State::InSingleQuote, Action::NextByte)
        },
        State::InDoubleQuote => if b == DOUBLE_QUOTE {
            (State::NoQuote, Action::NextByte)
        } else if b == BACKSLASH {
            (State::InDoubleQuoteEscape, Action::NextByte)
        } else if b == DOLLAR {
            (State::InDoubleQuoteVarStart, Action::NextByte)
        } else {
            (State::InDoubleQuote, Action::NextByte)
        },
        State::InDoubleQuoteEscape => (State::InDoubleQuote, Action::NextByte),
        State::InDoubleQuoteVarStart => (State::InDoubleQuoteVar, Action::LeftOver),
        State::InDoubleQuoteVar => if b == DOUBLE_QUOTE {
            (State::NoQuote, Action::NextByte)
        } else if b == DOLLAR {
            (State::InDoubleQuoteVarStart, Action::NextByte)
        } else if is_name(b) {
            (State::InDoubleQuoteVar, Action::NextByte)
        } else {
            (State::InDoubleQuote, Action::NextByte)
        },
    }
}

/// What a transition on byte `b` does to the token being built.
pub open spec fn edit(s: State, t: Seq<WordView>, b: u8) -> Seq<WordView> {
    match s {
        State::CarriageReturn => if b == LF {
            t.push(WordView::NewLine(b))
        } else {
            push_lit(push_lit(t, CR), b)
        },
        State::NoQuote => if b == LF {
            t.push(WordView::NewLine(b))
        } else if is_space(b) || b == BACKSLASH || b == SINGLE_QUOTE || b == DOUBLE_QUOTE || b == DOLLAR {
            t
        } else {
            push_lit(t, b)
        },
        State::NoQuoteEscape => if b == CR || b == LF {
            t
        } else {
            push_lit(t, b)
        },
        State::NoQuoteVar => if b == SINGLE_QUOTE || b == DOUBLE_QUOTE || b == BACKSLASH || is_space(b) {
            t
        } else if is_name(b) {
            push_var(t, b)
        } else {
            push_lit(t, b)
        },
        State::InSingleQuote => if b == SINGLE_QUOTE {
            t
        } else {
            push_lit(t, b)
        },
        State::InDoubleQuote => if b == DOUBLE_QUOTE || b == BACKSLASH || b == DOLLAR {
            t
        } else {
            push_lit(t, b)
        },
        State::InDoubleQuoteEscape => if b == DOLLAR {
            push_lit(t, b)
        } else {
            push_lit(push_lit(t, BACKSLASH), b)
        },
        State::InDoubleQuoteVar => if b == DOUBLE_QUOTE || b == DOLLAR {
            t
        } else if is_name(b) {
            push_var(t, b)
        } else {
            push_lit(t, b)
        },
        _ => t,
    }
}

/// States from which a byte may be left over for the next state.
pub open spec fn pending(s: State) -> nat {
    match s {
        State::FindNextNonAsciiWhiteSpace | State::NoQuoteVarStart | State::InDoubleQuoteVarStart => 1,
        _ => 0,
    }
}

/// The automaton, started in state `s` at byte `pos`, does not get stuck
/// before it completes a token or reaches the end of the input.
pub open spec fn token_clean(s: State, bytes: Seq<u8>, pos: nat) -> bool
    decreases 2 * (bytes.len() - pos) + pending(s),
{
    if pos >= bytes.len() {
        true
    } else if stuck(s, bytes[pos as int]) {
        false
    } else {
        let (s2, a) = next_state(s, bytes[pos as int]);
        match a {
            Action::LeftOver => token_clean(s2, bytes, pos),
            Action::NextByte => token_clean(s2, bytes, pos + 1),
            Action::Complete => true,
        }
    }
}

/// Runs the automaton from state `s` at byte `pos` with token `t` until a
/// token completes or the input ends: the final state, the token and the
/// position after the last byte consumed.
pub open spec fn run(s: State, t: Seq<WordView>, bytes: Seq<u8>, pos: nat) -> (State, Seq<
    WordView,
>, nat)
    decreases 2 * (bytes.len() - pos) + pending(s),
{
    if pos >= bytes.len() || stuck(s, bytes[pos as int]) {
        (s, t, pos)
    } else {
        let (s2, a) = next_state(s, bytes[pos as int]);
        let t2 = edit(s, t, bytes[pos as int]);
        match a {
            Action::LeftOver => run(s2, t2, bytes, pos),
            Action::NextByte => run(s2, t2, bytes, pos + 1),
            Action::Complete => (s2, t2, pos + 1),
        }
    }
}

impl State {
    /// Moves on byte `b`, editing `token` on the way.
    pub fn transition(&self, token: &mut Token, b: u8) -> (r: (State, Action))
        requires
            !stuck(*self, b),
        ensures
            r == next_state(*self, b),
            final(token)@ == edit(*self, old(token)@, b),
    {
        match self {
            State::FindNextNonAsciiWhiteSpace => {
                if is_ascii_whitespace(b) {
                    (State::FindNextNonAsciiWhiteSpace, Action::NextByte)
                } else {
                    (State::NoQuote, Action::LeftOver)
                }
            },
            State::CarriageReturn => {
                if b == LF {
                    token.break_line(b);
                    (State::FindNextNonAsciiWhiteSpace, Action::Complete)
                } else {
                    token.push_lit(CR);
                    token.push_lit(b);
                    (State::NoQuote, Action::NextByte)
                }
            },
            State::NoQuote => {
                if b == CR {
                    (State::CarriageReturn, Action::NextByte)
                } else if b == LF {
                    token.break_line(b);
                    (State::FindNextNonAsciiWhiteSpace, Action::Complete)
                } else if is_ascii_whitespace(b) {
                    (State::FindNextNonAsciiWhiteSpace, Action::Complete)
                } else if b == BACKSLASH {
                    (State::NoQuoteEscape, Action::NextByte)
                } else if b == SINGLE_QUOTE {
                    (State::InSingleQuote, Action::NextByte)
                } else if b == DOUBLE_QUOTE {
                    (State::InDoubleQuote, Action::NextByte)
                } else if b == DOLLAR {
                    (State::NoQuoteVarStart, Action::NextByte)
                } else {
                    token.push_lit(b);
                    (State::NoQuote, Action::NextByte)
                }
            },
            State::NoQuoteEscape => {
                if b == CR || b == LF {
                    (State::FindNextNonAsciiWhiteSpace, Action::NextByte)
                } else {
                    token.push_lit(b);
                    (State::NoQuote, Action::NextByte)
                }
            },
            State::NoQuoteVarStart => (State::NoQuoteVar, Action::LeftOver),
            State::NoQuoteVar => {
                if b == SINGLE_QUOTE {
                    (State::InSingleQuote, Action::NextByte)
                } else if b == DOUBLE_QUOTE {
                    (State::InDoubleQuote, Action::NextByte)
                } else if b == BACKSLASH {
                    (State::NoQuote, Action::NextByte)
                } else if is_ascii_whitespace(b) {
                    (State::FindNextNonAsciiWhiteSpace, Action::Complete)
                } else if is_name_byte(b) {
                    token.push_var(b);
                    (State::NoQuoteVar, Action::NextByte)
                } else {
                    token.push_lit(b);
                    (State::NoQuote, Action::NextByte)
                }
            },
            State::InSingleQuote => {
                if b == SINGLE_QUOTE {
                    (State::NoQuote, Action::NextByte)
                } else {
                    token.push_lit(b);
                    (State::InSingleQuote, Action::NextByte)
                }
            },
            State::InDoubleQuote => {
                if b == DOUBLE_QUOTE {
                    (State::NoQuote, Action::NextByte)
                } else if b == BACKSLASH {
                    (State::InDoubleQuoteEscape, Action::NextByte)
                } else if b == DOLLAR {
                    (State::InDoubleQuoteVarStart, Action::NextByte)
                } else {
                    token.push_lit(b);
                    (State::InDoubleQuote, Action::NextByte)
                }
            },
            State::InDoubleQuoteEscape => {
                if b == DOLLAR {
                    token.push_lit(b);
                } else {
                    token.push_lit(BACKSLASH);
                    token.push_lit(b);
                }
                (State::InDoubleQuote, Action::NextByte)
            },
            State::InDoubleQuoteVarStart => (State::InDoubleQuoteVar, Action::LeftOver),
            State::InDoubleQuoteVar => {
                if b == DOUBLE_QUOTE {
                    (State::NoQuote, Action::NextByte)
                } else if b == DOLLAR {
                    (State::InDoubleQuoteVarStart, Action::NextByte)
                } else if is_name_byte(b) {
                    token.push_var(b);
                    (State::InDoubleQuoteVar, Action::NextByte)
                } else {
                    token.push_lit(b);
                    (State::InDoubleQuote, Action::NextByte)
                }
            },
        }
    }
}

/// Splits bytes into tokens, one at a time.
pub struct Lexer {
    pub bytes: Vec<u8>,
    pub pos: usize,
    pub state: State,
}

impl Lexer {
    /// A lexer at the start of `bytes`.
    pub fn new(bytes: Vec<u8>) -> (r: Lexer)
        ensures
            r.bytes@ == bytes@,
            r.pos == 0,
            r.state == State::FindNextNonAsciiWhiteSpace,
    {
        Lexer { bytes, pos: 0, state: State::FindNextNonAsciiWhiteSpace }
    }

    /// The lexer is inside its input.
    pub open spec fn wf(&self) -> bool {
        self.pos <= self.bytes@.len()
    }

    /// Decides whether the automaton completes the next token, or reaches the
    /// end of the input, without getting stuck.
    pub fn lexes_cleanly(&self) -> (r: bool)
        requires
            self.wf(),
        ensures
            r == token_clean(self.state, self.bytes@, self.pos as nat),
    {
        let n = self.bytes.len();
        let mut s = self.state;
        let mut i = self.pos;
        while i < n
            invariant
                n == self.bytes@.len(),
                i <= n,
                token_clean(s, self.bytes@, i as nat) == token_clean(self.state, self.bytes@, self.pos as nat),
            decreases 2 * (n - i) + pending(s),
        {
            let b = self.bytes[i];
            let stuck_here = match s {
                State::NoQuoteVarStart | State::InDoubleQuoteVarStart => !is_name_byte(b),
                _ => false,
            };
            if stuck_here {
                return false;
            }
            let mut scratch = Token::new();
            let (s2, a) = s.transition(&mut scratch, b);
            s = s2;
            match a {
                Action::LeftOver => {},
                Action::NextByte => {
                    i = i + 1;
                },
                Action::Complete => {
                    return true;
                },
            }
        }
        true
    }

    /// Reads the next token; `None` at the end of the input or when the
    /// automaton completes a token with no words.
    pub fn next_token_nfa(&mut self) -> (r: Option<Token>)
        requires
            old(self).wf(),
            token_clean(old(self).state, old(self).bytes@, old(self).pos as nat),
        ensures
            final(self).wf(),
            final(self).bytes@ == old(self).bytes@,
            old(self).pos >= old(self).bytes@.len() ==> r is None && final(self).pos == old(
                self,
            ).pos && final(self).state == old(self).state,
            old(self).pos < old(self).bytes@.len() ==> ({
                let (s, t, p) = run(
                    old(self).state,
                    Seq::empty(),
                    old(self).bytes@,
                    old(self).pos as nat,
                );
                &&& final(self).state == s
                &&& final(self).pos == p
                &&& p > old(self).pos
                &&& match r {
                    None => t.len() == 0,
                    Some(tok) => tok@ == t && t.len() > 0,
                }
            }),
    {
        let n = self.bytes.len();
        if self.pos >= n {
            return None;
        }
        let ghost s0 = self.state;
        let ghost p0 = self.pos as nat;
        let ghost b0 = self.bytes@;
        let mut i = self.pos;
        let mut token = Token::new();
        loop
            invariant_except_break
                i < n,
                token_clean(self.state, self.bytes@, i as nat),
                run(self.state, token@, self.bytes@, i as nat) == run(
                    s0,
                    Seq::empty(),
                    self.bytes@,
                    p0,
                ),
            invariant
                self.bytes@ == b0,
                n == self.bytes@.len(),
                p0 <= i <= n,
                p0 < n,
            ensures
                p0 < i <= n,
                run(s0, Seq::empty(), self.bytes@, p0) == (self.state, token@, i as nat),
            decreases 2 * (n - i) + pending(self.state),
        {
            let b = self.bytes[i];
            let (state, action) = self.state.transition(&mut token, b);
            self.state = state;
            match action {
                Action::LeftOver => {
                    continue;
                },
                Action::NextByte => {},
                Action::Complete => {
                    i = i + 1;
                    break;
                },
            }
            i = i + 1;
            if i >= n {
                assert(run(self.state, token@, self.bytes@, i as nat) == (self.state, token@, i as nat));
                break;
            }
        }
        self.pos = i;
        if token.words.len() == 0 {
            None
        } else {
            Some(token)
        }
    }
}

/// No word of the token is a line break.
pub open spec fn no_break(t: Seq<WordView>) -> bool {
    forall|k: int| 0 <= k < t.len() ==> !(#[trigger] t[k] is NewLine)
}

proof fn lemma_push_no_break(t: Seq<WordView>, b: u8)
    requires
        no_break(t),
    ensures
        no_break(push_lit(t, b)),
        no_break(push_var(t, b)),
{
    let l = push_lit(t, b);
    assert forall|k: int| 0 <= k < l.len() implies !(#[trigger] l[k] is NewLine) by {
        if k < t.len() - 1 || !(t.len() > 0 && t.last() is Lit) {
            if k < t.len() {
                assert(l[k] == t[k]);
            }
        }
    }
    let v = push_var(t, b);
    assert forall|k: int| 0 <= k < v.len() implies !(#[trigger] v[k] is NewLine) by {
        if k < t.len() - 1 || !(t.len() > 0 && t.last() is Var) {
            if k < t.len() {
                assert(v[k] == t[k]);
            }
        }
    }
}

/// A transition only adds a line break when it completes the token.
proof fn lemma_edit_breaks(s: State, t: Seq<WordView>, b: u8)
    requires
        no_break(t),
    ensures
        no_break(edit(s, t, b)) || (next_state(s, b).1 is Complete && edit(s, t, b) == t.push(
            WordView::NewLine(b),
        )),
{
    lemma_push_no_break(t, b);
    lemma_push_no_break(t, CR);
    lemma_push_no_break(push_lit(t, CR), b);
    lemma_push_no_break(t, BACKSLASH);
    lemma_push_no_break(push_lit(t, BACKSLASH), b);
}

/// A line break only ever ends a token: running the automaton on a token
/// with no line break yields a token whose only line break, if any, is its
/// last word.
pub proof fn lemma_break_ends_token(s: State, t: Seq<WordView>, bytes: Seq<u8>, pos: nat)
    requires
        no_break(t),
    ensures
        ({
            let r = run(s, t, bytes, pos).1;
            forall|k: int| 0 <= k < r.len() - 1 ==> !(#[trigger] r[k] is NewLine)
        }),
    decreases 2 * (bytes.len() - pos) + pending(s),
{
    if pos < bytes.len() && !stuck(s, bytes[pos as int]) {
        let b = bytes[pos as int];
        let (s2, a) = next_state(s, b);
        let t2 = edit(s, t, b);
        lemma_edit_breaks(s, t, b);
        if no_break(t2) {
            match a {
                Action::LeftOver => lemma_break_ends_token(s2, t2, bytes, pos),
                Action::NextByte => lemma_break_ends_token(s2, t2, bytes, pos + 1),
                Action::Complete => {},
            }
        } else {
            let r = run(s, t, bytes, pos).1;
            assert(r == t.push(WordView::NewLine(b)));
            assert forall|k: int| 0 <= k < r.len() - 1 implies !(#[trigger] r[k] is NewLine) by {
                assert(r[k] == t[k]);
            }
        }
    }
}

/// Right after a `$`, outside quotes or inside double quotes, a byte that
/// can start a variable name is left over, unconsumed, for the variable
/// state, and the token stays as it is; any other byte has no transition.
pub proof fn lemma_var_start(s: State, t: Seq<WordView>, b: u8)
    requires
        s is NoQuoteVarStart || s is InDoubleQuoteVarStart,
    ensures
        stuck(s, b) <==> !is_name(b),
        !stuck(s, b) ==> next_state(s, b) == if s is NoQuoteVarStart {
            (State::NoQuoteVar, Action::LeftOver)
        } else {
            (State::InDoubleQuoteVar, Action::LeftOver)
        },
        !stuck(s, b) ==> edit(s, t, b) == t,
{
}

/// Outside quotes a space, a tab, a form feed or a line feed ends the token
/// and moves on to skipping white space: the separator is not added to the
/// token, except that a line feed marks a line break; in front of a token
/// those bytes are skipped.
pub proof fn lemma_separators(t: Seq<WordView>, b: u8)
    requires
        b == 0x20 || b == 0x09 || b == 0x0c || b == 0x0a,
    ensures
        next_state(State::NoQuote, b) == (State::FindNextNonAsciiWhiteSpace, Action::Complete),
        edit(State::NoQuote, t, b) == if b == 0x0a { t.push(WordView::NewLine(b)) } else { t },
        next_state(State::NoQuoteVar, b) == (State::FindNextNonAsciiWhiteSpace, Action::Complete),
        edit(State::NoQuoteVar, t, b) == t,
        next_state(State::FindNextNonAsciiWhiteSpace, b) == (State::FindNextNonAsciiWhiteSpace, Action::NextByte),
{
}

/// A byte with no special meaning outside quotes: neither white space nor a
/// backslash, a quote or a dollar sign.
pub open spec fn plain(b: u8) -> bool {
    !(b == 0x20 || b == 0x09 || b == 0x0a || b == 0x0c || b == 0x0d || b == 0x5c || b == 0x27
        || b == 0x22 || b == 0x24)
}

/// Outside quotes, plain bytes up to a space, a tab or a form feed make one
/// literal word: the token is complete right after that separator.
pub proof fn lemma_plain_word(bytes: Seq<u8>, pos: nat, k: nat)
    requires
        pos <= k < bytes.len(),
        forall|i: int| pos <= i < k ==> plain(#[trigger] bytes[i]),
        bytes[k as int] == 0x20 || bytes[k as int] == 0x09 || bytes[k as int] == 0x0c,
    ensures
        run(State::NoQuote, Seq::empty(), bytes, pos) == (
            State::FindNextNonAsciiWhiteSpace,
            if k == pos {
                Seq::<WordView>::empty()
            } else {
                seq![WordView::Lit(bytes.subrange(pos as int, k as int))]
            },
            k + 1,
        ),
{
    if pos < k {
        let b = bytes[pos as int];
        assert(push_lit(Seq::<WordView>::empty(), b) == seq![WordView::Lit(seq![b])]);
        lemma_plain_word_from(bytes, pos + 1, k, seq![b]);
        assert(seq![b] + bytes.subrange(pos + 1 as int, k as int) =~= bytes.subrange(pos as int, k as int));
    }
}

proof fn lemma_plain_word_from(bytes: Seq<u8>, pos: nat, k: nat, w: Seq<u8>)
    requires
        pos <= k < bytes.len(),
        forall|i: int| pos <= i < k ==> plain(#[trigger] bytes[i]),
        bytes[k as int] == 0x20 || bytes[k as int] == 0x09 || bytes[k as int] == 0x0c,
    ensures
        run(State::NoQuote, seq![WordView::Lit(w)], bytes, pos) == (
            State::FindNextNonAsciiWhiteSpace,
            seq![WordView::Lit(w + bytes.subrange(pos as int, k as int))],
            k + 1,
        ),
    decreases k - pos,
{
    let t = seq![WordView::Lit(w)];
    if pos == k {
        assert(w + bytes.subrange(pos as int, k as int) =~= w);
    } else {
        let b = bytes[pos as int];
        assert(t.drop_last() =~= Seq::<WordView>::empty());
        assert(push_lit(t, b) == seq![WordView::Lit(w.push(b))]);
        lemma_plain_word_from(bytes, pos + 1, k, w.push(b));
        assert(w.push(b) + bytes.subrange(pos + 1 as int, k as int) =~= w + bytes.subrange(pos as int, k as int));
    }
}

} // verus!
