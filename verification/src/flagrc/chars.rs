//! A character-level lexer for flags files, and the parsing of whole files
//! into entries.

use vstd::prelude::*;
use crate::flagrc::lookup;
use vstd::std_specs::iter::IteratorSpec;

verus! {

/// `char::is_ascii_whitespace`: space, tab, line feed, form feed or carriage return.
pub open spec fn is_space(c: char) -> bool {
    c == ' ' || c == '\t' || c == '\n' || c == '\x0c' || c == '\r'
}

/// An ASCII letter or digit, or an underscore.
pub open spec fn is_name(c: char) -> bool {
    ('0' <= c <= '9') || ('A' <= c <= 'Z') || ('a' <= c <= 'z') || c == '_'
}

/// Decides `is_space`.
pub fn is_ascii_whitespace(c: char) -> (r: bool)
    ensures
        r == is_space(c),
{
    c == ' ' || c == '\t' || c == '\n' || c == '\x0c' || c == '\r'
}

/// Decides `is_name`.
pub fn is_name_char(c: char) -> (r: bool)
    ensures
        r == is_name(c),
{
    ('0' <= c && c <= '9') || ('A' <= c && c <= 'Z') || ('a' <= c && c <= 'z') || c == '_'
}

/// A piece of a token.
#[derive(Clone, Debug, PartialEq, Eq)]
pub enum Word {
    /// A dummy word that disappears when a token is rendered; it also
    /// separates the words of a token.
    Empty,
    /// Literal text.
    Lit(Vec<char>),
    /// The name of a variable.
    Var(Vec<char>),
    /// A line break that was not escaped.
    NewLine(char),
}

/// The mathematical value of a word.
pub enum WordView {
    Empty,
    Lit(Seq<char>),
    Var(Seq<char>),
    NewLine(char),
}

impl View for Word {
    type V = WordView;

    open spec fn view(&self) -> WordView {
        match self {
            Word::Empty => WordView::Empty,
            Word::Lit(v) => WordView::Lit(v@),
            Word::Var(v) => WordView::Var(v@),
            Word::NewLine(c) => WordView::NewLine(*c),
        }
    }
}

/// A single element of a line, made of words.
#[derive(Clone, Debug, PartialEq, Eq)]
pub struct Token {
    pub words: Vec<Word>,
}

impl View for Token {
    type V = Seq<WordView>;

    open spec fn view(&self) -> Seq<WordView> {
        self.words@.map_values(|w: Word| w@)
    }
}

/// The last word is a line break.
pub open spec fn ends_line(t: Seq<WordView>) -> bool {
    t.len() > 0 && t.last() is NewLine
}

/// Appends `c` to a trailing literal or variable name, or starts a literal.
pub open spec fn push(t: Seq<WordView>, c: char) -> Seq<WordView> {
    if t.len() == 0 {
        t.push(WordView::Lit(seq![c]))
    } else {
        match t.last() {
            WordView::Empty => t.push(WordView::Lit(seq![c])),
            WordView::Lit(s) => t.drop_last().push(WordView::Lit(s.push(c))),
            WordView::Var(s) => t.drop_last().push(WordView::Var(s.push(c))),
            WordView::NewLine(_) => t,
        }
    }
}

/// Ends the trailing word, unless it already is an empty one.
pub open spec fn split(t: Seq<WordView>) -> Seq<WordView> {
    if t.len() > 0 && t.last() is Empty {
        t
    } else {
        t.push(WordView::Empty)
    }
}

/// The trailing word is a variable name.
pub open spec fn in_var(t: Seq<WordView>) -> bool {
    t.len() > 0 && t.last() is Var
}

impl Token {
    /// A token with no words.
    pub fn new() -> (r: Token)
        ensures
            r@ == Seq::<WordView>::empty(),
    {
        let r = Token { words: Vec::new() };
        proof {
            assert(r@ =~= Seq::<WordView>::empty());
        }
        r
    }

    /// Takes the token out, leaving an empty one.
    pub fn reset(&mut self) -> (r: Token)
        ensures
            r@ == old(self)@,
            final(self)@ == Seq::<WordView>::empty(),
    {
        let mut out = Token::new();
        std::mem::swap(self, &mut out);
        out
    }

    /// Appends a character; a line break never takes one.
    pub fn push(&mut self, c: char)
        requires
            !ends_line(old(self)@),
        ensures
            final(self)@ == push(old(self)@, c),
    {
        let ghost t = self@;
        let ghost ws = self.words@;
        match self.words.pop() {
            Some(Word::Lit(mut v)) => {
                let ghost v0 = v@;
                v.push(c);
                self.words.push(Word::Lit(v));
                proof {
                    assert(t.last() == WordView::Lit(v0));
                    assert(self.words@ == ws.drop_last().push(Word::Lit(v)));
                    assert(self@ =~= t.drop_last().push(WordView::Lit(v0.push(c))));
                }
            },
            Some(Word::Var(mut v)) => {
                let ghost v0 = v@;
                v.push(c);
                self.words.push(Word::Var(v));
                proof {
                    assert(t.last() == WordView::Var(v0));
                    assert(self.words@ == ws.drop_last().push(Word::Var(v)));
                    assert(self@ =~= t.drop_last().push(WordView::Var(v0.push(c))));
                }
            },
            Some(w) => {
                self.words.push(w);
                let one = vec![c];
                proof {
                    assert(one@ =~= seq![c]);
                    assert(self.words@ =~= ws);
                }
                self.words.push(Word::Lit(one));
                proof {
                    assert(self@ =~= t.push(WordView::Lit(seq![c])));
                }
            },
            None => {
                let one = vec![c];
                proof {
                    assert(one@ =~= seq![c]);
                }
                self.words.push(Word::Lit(one));
                proof {
                    assert(self@ =~= t.push(WordView::Lit(seq![c])));
                }
            },
        }
    }

    /// Marks the end of a line.
    pub fn break_line(&mut self, c: char)
        ensures
            final(self)@ == old(self)@.push(WordView::NewLine(c)),
    {
        let ghost t = self@;
        self.words.push(Word::NewLine(c));
        proof {
            assert(self@ =~= t.push(WordView::NewLine(c)));
        }
    }

    /// Ends the trailing word.
    pub fn split(&mut self)
        ensures
            final(self)@ == split(old(self)@),
    {
        let ghost t = self@;
        let n = self.words.len();
        let last_is_empty = n > 0 && match &self.words[n - 1] {
            Word::Empty => true,
            _ => false,
        };
        if !last_is_empty {
            self.words.push(Word::Empty);
            proof {
                assert(self@ =~= t.push(WordView::Empty));
            }
        }
    }

    /// Starts a variable name.
    pub fn begin_var(&mut self)
        ensures
            final(self)@ == old(self)@.push(WordView::Var(Seq::empty())),
    {
        let ghost t = self@;
        let name: Vec<char> = Vec::new();
        self.words.push(Word::Var(name));
        proof {
            assert(self@ =~= t.push(WordView::Var(Seq::empty())));
        }
    }

    /// Whether the trailing word is a variable name.
    pub fn in_var(&self) -> (r: bool)
        ensures
            r == in_var(self@),
    {
        let n = self.words.len();
        n > 0 && match &self.words[n - 1] {
            Word::Var(_) => true,
            _ => false,
        }
    }

    /// Whether the last word is a line break.
    pub fn ends_line(&self) -> (r: bool)
        ensures
            r == ends_line(self@),
    {
        let n = self.words.len();
        n > 0 && match &self.words[n - 1] {
            Word::NewLine(_) => true,
            _ => false,
        }
    }
}

/// Reads a token whose first character `c` was just read, with the next
/// unread character at `pos`, in quote state `q` and with the words `t`
/// read so far: the quote state, the words and the position after it.
pub open spec fn lex(q: Option<char>, t: Seq<WordView>, chars: Seq<char>, pos: nat, c: char) -> (
    Option<char>,
    Seq<WordView>,
    nat,
)
    decreases chars.len() - pos, 1nat,
{
    if q == Some('\'') {
        let (q2, t2) = if c == '\'' {
            (None::<char>, t)
        } else {
            (q, push(t, c))
        };
        go_on(q2, t2, chars, pos)
    } else if q == Some('"') {
        if c == '"' {
            go_on(None, if in_var(t) { split(t) } else { t }, chars, pos)
        } else if c == '\\' && in_var(t) {
            go_on(q, push(split(t), c), chars, pos)
        } else if c == '$' {
            go_on(q, t.push(WordView::Var(Seq::empty())), chars, pos)
        } else {
            go_on(q, push(t, c), chars, pos)
        }
    } else if in_var(t) {
        if c == '\'' || c == '"' {
            go_on(Some(c), split(t), chars, pos)
        } else if c == '\\' {
            go_on(q, split(t), chars, pos)
        } else if c == '$' {
            go_on(q, t.push(WordView::Var(Seq::empty())), chars, pos)
        } else if is_space(c) {
            (q, t, pos)
        } else if is_name(c) {
            go_on(q, push(t, c), chars, pos)
        } else {
            go_on(q, push(split(t), c), chars, pos)
        }
    } else {
        if c == '\'' || c == '"' {
            go_on(Some(c), t, chars, pos)
        } else if c == '\\' {
            if pos < chars.len() {
                let esc = chars[pos as int];
                let t2 = if esc == '\n' || esc == '\r' {
                    t
                } else {
                    push(t, esc)
                };
                go_on(q, t2, chars, pos + 1)
            } else {
                (q, t, pos)
            }
        } else if c == '$' {
            go_on(q, t.push(WordView::Var(Seq::empty())), chars, pos)
        } else if c == '\n' || c == '\r' {
            (q, t.push(WordView::NewLine(c)), pos)
        } else if is_space(c) {
            (q, t, pos)
        } else {
            go_on(q, push(t, c), chars, pos)
        }
    }
}

/// Reads the character at `pos` and goes on, or stops at the end.
pub open spec fn go_on(q: Option<char>, t: Seq<WordView>, chars: Seq<char>, pos: nat) -> (
    Option<char>,
    Seq<WordView>,
    nat,
)
    decreases chars.len() - pos, 0nat,
{
    if pos < chars.len() {
        lex(q, t, chars, pos + 1, chars[pos as int])
    } else {
        (q, t, pos)
    }
}

/// The first position from `pos` on that holds no white space, or the end.
pub open spec fn skip_space(chars: Seq<char>, pos: nat) -> nat
    decreases chars.len() - pos,
{
    if pos < chars.len() && is_space(chars[pos as int]) {
        skip_space(chars, pos + 1)
    } else {
        pos
    }
}

/// Splits characters into tokens, one at a time.
pub struct Lexer {
    pub chars: Vec<char>,
    pub pos: usize,
    pub token: Token,
    pub quote: Option<char>,
}

impl Lexer {
    /// A lexer at the start of `chars`.
    pub fn new(chars: Vec<char>) -> (r: Lexer)
        ensures
            r.chars@ == chars@,
            r.pos == 0,
            r.token@ == Seq::<WordView>::empty(),
            r.quote is None,
    {
        Lexer { chars, pos: 0, token: Token::new(), quote: None }
    }

    /// Inside the input, between tokens.
    pub open spec fn wf(&self) -> bool {
        self.pos <= self.chars@.len() && self.token@ == Seq::<WordView>::empty()
    }

    /// Reads the next token: `None` when only white space is left.
    pub fn next(&mut self) -> (r: Option<Token>)
        requires
            old(self).wf(),
        ensures
            final(self).wf(),
            final(self).chars@ == old(self).chars@,
            ({
                let p = skip_space(old(self).chars@, old(self).pos as nat);
                if p >= old(self).chars@.len() {
                    r is None && final(self).pos == old(self).chars@.len() && final(self).quote
                        == old(self).quote
                } else {
                    let (q, t, p2) = lex(
                        old(self).quote,
                        Seq::empty(),
                        old(self).chars@,
                        p + 1,
                        old(self).chars@[p as int],
                    );
                    &&& r matches Some(tok) && tok@ == t
                    &&& final(self).quote == q
                    &&& final(self).pos == p2
                    &&& p2 > old(self).pos
                }
            }),
    {
        let n = self.chars.len();
        let ghost p0 = self.pos as nat;
        let ghost c0 = self.chars@;
        let ghost q0 = self.quote;
        while self.pos < n && is_ascii_whitespace(self.chars[self.pos])
            invariant
                self.chars@ == c0,
                self.quote == q0,
                n == self.chars@.len(),
                p0 <= self.pos <= n,
                self.token@ == Seq::<WordView>::empty(),
                skip_space(self.chars@, self.pos as nat) == skip_space(self.chars@, p0),
            decreases n - self.pos,
        {
            self.pos = self.pos + 1;
        }
        if self.pos >= n {
            return None;
        }
        assert(skip_space(self.chars@, self.pos as nat) == self.pos);
        let c = self.chars[self.pos];
        self.pos = self.pos + 1;
        Some(self.next_token(c))
    }

    /// Reads the rest of a token whose first character `c` was just read.
    pub fn next_token(&mut self, c: char) -> (r: Token)
        requires
            old(self).pos <= old(self).chars@.len(),
            old(self).token@ == Seq::<WordView>::empty(),
        ensures
            final(self).wf(),
            final(self).chars@ == old(self).chars@,
            final(self).pos >= old(self).pos,
            (final(self).quote, r@, final(self).pos as nat) == lex(
                old(self).quote,
                Seq::empty(),
                old(self).chars@,
                old(self).pos as nat,
                c,
            ),
    {
        let n = self.chars.len();
        let ghost whole = lex(self.quote, self.token@, self.chars@, self.pos as nat, c);
        let ghost p0 = self.pos;
        let ghost c0 = self.chars@;
        let mut c = c;
        loop
            invariant_except_break
                lex(self.quote, self.token@, self.chars@, self.pos as nat, c) == whole,
                !ends_line(self.token@),
            invariant
                self.chars@ == c0,
                n == self.chars@.len(),
                p0 <= self.pos <= n,
            ensures
                (self.quote, self.token@, self.pos as nat) == whole,
            decreases n - self.pos,
        {
            let ghost q = self.quote;
            let ghost t = self.token@;
            let ghost pos = self.pos as nat;
            let in_single = match self.quote {
                Some(x) => x == '\'',
                None => false,
            };
            let in_double = match self.quote {
                Some(x) => x == '"',
                None => false,
            };
            if in_single {
                if c == '\'' {
                    self.quote = None;
                } else {
                    self.token.push(c);
                }
            } else if in_double {
                if c == '"' {
                    if self.token.in_var() {
                        self.token.split();
                    }
                    self.quote = None;
                } else if c == '\\' && self.token.in_var() {
                    self.token.split();
                    self.token.push(c);
                } else if c == '$' {
                    self.token.begin_var();
                } else {
                    self.token.push(c);
                }
            } else if self.token.in_var() {
                if c == '\'' || c == '"' {
                    self.quote = Some(c);
                    self.token.split();
                } else if c == '\\' {
                    self.token.split();
                } else if c == '$' {
                    self.token.begin_var();
                } else if is_ascii_whitespace(c) {
                    break;
                } else if is_name_char(c) {
                    self.token.push(c);
                } else {
                    self.token.split();
                    self.token.push(c);
                }
            } else {
                if c == '\'' || c == '"' {
                    self.quote = Some(c);
                } else if c == '\\' {
                    if self.pos < n {
                        let esc = self.chars[self.pos];
                        self.pos = self.pos + 1;
                        // A backslash at the end of a line continues the line.
                        if !(esc == '\n' || esc == '\r') {
                            self.token.push(esc);
                        }
                    } else {
                        break;
                    }
                } else if c == '$' {
                    self.token.begin_var();
                } else if c == '\n' || c == '\r' {
                    self.token.break_line(c);
                    break;
                } else if is_ascii_whitespace(c) {
                    break;
                } else {
                    self.token.push(c);
                }
            }
            if self.pos < n {
                c = self.chars[self.pos];
                self.pos = self.pos + 1;
            } else {
                break;
            }
        }
        self.token.reset()
    }
}


/// The next token from quote state `q` at `pos`: its words, the quote state
/// and the position after it; nothing when only white space is left.
pub open spec fn next_token(q: Option<char>, chars: Seq<char>, pos: nat) -> Option<
    (Seq<WordView>, Option<char>, nat),
> {
    let p = skip_space(chars, pos);
    if p >= chars.len() {
        None
    } else {
        let (q2, t, p2) = lex(q, Seq::empty(), chars, p + 1, chars[p as int]);
        Some((t, q2, p2))
    }
}

/// The tokens of one line: up to and including the first one that ends a
/// line, or up to the end of the tokens; then the quote state and position
/// after them.
pub open spec fn one_line(q: Option<char>, chars: Seq<char>, pos: nat) -> (
    Seq<Seq<WordView>>,
    Option<char>,
    nat,
)
    decreases chars.len() - pos,
{
    match next_token(q, chars, pos) {
        None => (Seq::empty(), q, chars.len()),
        Some((t, q2, p2)) => if ends_line(t) || p2 <= pos || p2 > chars.len() {
            (seq![t], q2, p2)
        } else {
            let rest = one_line(q2, chars, p2);
            (seq![t] + rest.0, rest.1, rest.2)
        },
    }
}

/// All the lines of tokens from quote state `q` at `pos`.
pub open spec fn all_lines(q: Option<char>, chars: Seq<char>, pos: nat) -> Seq<Seq<Seq<WordView>>>
    decreases chars.len() - pos,
{
    let (ts, q2, p2) = one_line(q, chars, pos);
    if ts.len() == 0 || p2 <= pos || p2 > chars.len() {
        Seq::empty()
    } else {
        seq![ts] + all_lines(q2, chars, p2)
    }
}

/// The text that a token stands for: literals as they are, variables by
/// their values (nothing when unbound), up to the first line break.
pub open spec fn render(t: Seq<WordView>, envs: Seq<(Seq<char>, Seq<char>)>) -> Seq<char>
    decreases t.len(),
{
    if t.len() == 0 {
        Seq::empty()
    } else {
        match t[0] {
            WordView::Empty => render(t.drop_first(), envs),
            WordView::Lit(s) => s + render(t.drop_first(), envs),
            WordView::Var(v) => match lookup(envs, v) {
                Some(x) => x + render(t.drop_first(), envs),
                None => render(t.drop_first(), envs),
            },
            WordView::NewLine(_) => Seq::empty(),
        }
    }
}

/// A line without its comment: what precedes the first `#`.
pub open spec fn strip_comment(s: Seq<char>) -> Seq<char>
    decreases s.len(),
{
    if s.len() == 0 {
        s
    } else if s[0] == '#' {
        Seq::empty()
    } else {
        seq![s[0]] + strip_comment(s.drop_first())
    }
}

/// Drops the leading white space.
pub open spec fn trim_start(s: Seq<char>) -> Seq<char>
    decreases s.len(),
{
    if s.len() > 0 && is_space(s[0]) {
        trim_start(s.drop_first())
    } else {
        s
    }
}

/// Drops the trailing white space.
pub open spec fn trim_end(s: Seq<char>) -> Seq<char>
    decreases s.len(),
{
    if s.len() > 0 && is_space(s.last()) {
        trim_end(s.drop_last())
    } else {
        s
    }
}

/// Drops the white space at both ends.
pub open spec fn trim(s: Seq<char>) -> Seq<char> {
    trim_start(trim_end(s))
}

/// The characters of each line.
pub open spec fn views(ls: Seq<Vec<char>>) -> Seq<Seq<char>> {
    ls.map_values(|l: Vec<char>| l@)
}

/// The text that the lexer reads from the lines of a flags file: each line
/// without its comment and trimmed, followed by a line feed; the lines left
/// empty are dropped.
pub open spec fn prepared(lines: Seq<Seq<char>>) -> Seq<char>
    decreases lines.len(),
{
    if lines.len() == 0 {
        Seq::empty()
    } else {
        let l = trim(strip_comment(lines.last()));
        prepared(lines.drop_last()) + if l.len() == 0 {
            Seq::empty()
        } else {
            l.push('\n')
        }
    }
}

/// The characters of a string.
pub(crate) fn chars_of(s: &String) -> (r: Vec<char>)
    ensures
        r@ == s@,
{
    broadcast use {vstd::string::axiom_spec_iter, vstd::string::next_postcondition};

    let mut it = s.as_str().chars();
    let mut out: Vec<char> = Vec::new();
    assert(it.remaining() == s@);
    loop
        invariant
            out@ + it.remaining() == s@,
            it.decrease() is Some,
        ensures
            out@ == s@,
        decreases it.decrease()->0,
    {
        let ghost before = it.remaining();
        match it.next() {
            Some(c) => {
                let ghost o = out@;
                out.push(c);
                assert(o + before == out@ + it.remaining()) by {
                    assert(before == seq![c] + it.remaining());
                    assert(o + before =~= out@ + it.remaining());
                }
            },
            None => {
                assert(it.remaining().len() == 0);
                assert(out@ + it.remaining() =~= out@);
                break;
            },
        }
    }
    out
}

/// The string made of some characters.
#[verifier::external_body]
pub(crate) fn string_of(chars: &Vec<char>) -> (s: String)
    ensures
        s@ == chars@,
{
    chars.iter().collect()
}

/// The line without its comment.
pub fn strip_comment_of(s: &Vec<char>) -> (r: Vec<char>)
    ensures
        r@ == strip_comment(s@),
{
    let mut out: Vec<char> = Vec::new();
    let mut i: usize = 0;
    proof {
        assert(s@.subrange(0, s@.len() as int) =~= s@);
        assert(out@ + strip_comment(s@) =~= strip_comment(s@));
    }
    while i < s.len()
        invariant
            i <= s@.len(),
            out@ + strip_comment(s@.subrange(i as int, s@.len() as int)) == strip_comment(s@),
        decreases s@.len() - i,
    {
        let ghost rest = s@.subrange(i as int, s@.len() as int);
        proof {
            assert(rest.drop_first() =~= s@.subrange(i + 1, s@.len() as int));
        }
        if s[i] == '#' {
            proof {
                assert(out@ + Seq::<char>::empty() =~= out@);
            }
            return out;
        }
        let ghost before = out@;
        out.push(s[i]);
        proof {
            assert(before + (seq![s@[i as int]] + strip_comment(rest.drop_first())) =~= out@
                + strip_comment(rest.drop_first()));
        }
        i = i + 1;
    }
    proof {
        assert(s@.subrange(i as int, s@.len() as int) =~= Seq::<char>::empty());
        assert(out@ + Seq::<char>::empty() =~= out@);
    }
    out
}

/// The line without white space at its ends.
pub fn trim_of(s: &Vec<char>) -> (r: Vec<char>)
    ensures
        r@ == trim(s@),
{
    let mut end = s.len();
    proof {
        assert(s@.subrange(0, s@.len() as int) =~= s@);
    }
    while end > 0 && is_ascii_whitespace(s[end - 1])
        invariant
            end <= s@.len(),
            trim_end(s@) == trim_end(s@.subrange(0, end as int)),
        decreases end,
    {
        proof {
            assert(s@.subrange(0, end as int).drop_last() =~= s@.subrange(0, end - 1));
        }
        end = end - 1;
    }
    let ghost e = s@.subrange(0, end as int);
    assert(trim_end(e) == e);
    let mut start: usize = 0;
    proof {
        assert(e.subrange(0, e.len() as int) =~= e);
    }
    while start < end && is_ascii_whitespace(s[start])
        invariant
            start <= end <= s@.len(),
            e == s@.subrange(0, end as int),
            trim_start(e) == trim_start(e.subrange(start as int, end as int)),
        decreases end - start,
    {
        proof {
            assert(e.subrange(start as int, end as int).drop_first() =~= e.subrange(
                start + 1,
                end as int,
            ));
        }
        start = start + 1;
    }
    let ghost f = e.subrange(start as int, end as int);
    assert(trim_start(f) == f);
    let mut out: Vec<char> = Vec::new();
    let mut k: usize = start;
    while k < end
        invariant
            start <= k <= end <= s@.len(),
            out@ == s@.subrange(start as int, k as int),
        decreases end - k,
    {
        out.push(s[k]);
        k = k + 1;
        proof {
            assert(out@ =~= s@.subrange(start as int, k as int));
        }
    }
    proof {
        assert(out@ =~= f);
    }
    out
}

/// The text that the lexer reads from the lines of a flags file.
pub fn prepare(lines: &Vec<Vec<char>>) -> (r: Vec<char>)
    ensures
        r@ == prepared(views(lines@)),
{
    let ghost ls = views(lines@);
    let mut out: Vec<char> = Vec::new();
    let mut i: usize = 0;
    proof {
        assert(ls.subrange(0, 0) =~= Seq::<Seq<char>>::empty());
    }
    while i < lines.len()
        invariant
            i <= lines@.len(),
            ls == views(lines@),
            out@ == prepared(ls.subrange(0, i as int)),
        decreases lines@.len() - i,
    {
        let stripped = strip_comment_of(&lines[i]);
        let l = trim_of(&stripped);
        let ghost before = out@;
        if l.len() > 0 {
            let mut k: usize = 0;
            while k < l.len()
                invariant
                    k <= l@.len(),
                    out@ == before + l@.subrange(0, k as int),
                decreases l@.len() - k,
            {
                out.push(l[k]);
                k = k + 1;
                proof {
                    assert(out@ =~= before + l@.subrange(0, k as int));
                }
            }
            out.push('\n');
            proof {
                assert(out@ =~= before + l@.push('\n'));
            }
        }
        proof {
            let pre = ls.subrange(0, i + 1);
            assert(pre.drop_last() =~= ls.subrange(0, i as int));
            assert(pre.last() == lines@[i as int]@);
            if l.len() == 0 {
                assert(before + Seq::<char>::empty() =~= before);
            }
        }
        i = i + 1;
    }
    proof {
        assert(ls.subrange(0, lines@.len() as int) =~= ls);
    }
    out
}


/// Variable bindings as characters: the name, then the value.
pub open spec fn env_view(envs: Seq<(Vec<char>, Vec<char>)>) -> Seq<(Seq<char>, Seq<char>)> {
    envs.map_values(|p: (Vec<char>, Vec<char>)| (p.0@, p.1@))
}

/// Whether two character strings are equal.
fn chars_eq(a: &Vec<char>, b: &Vec<char>) -> (r: bool)
    ensures
        r == (a@ == b@),
{
    if a.len() != b.len() {
        return false;
    }
    let mut i: usize = 0;
    while i < a.len()
        invariant
            a@.len() == b@.len(),
            i <= a@.len(),
            forall|k: int| 0 <= k < i ==> a@[k] == b@[k],
        decreases a@.len() - i,
    {
        if a[i] != b[i] {
            return false;
        }
        i = i + 1;
    }
    proof {
        assert(a@ =~= b@);
    }
    true
}

/// The index of the last binding of `name`, if any.
fn lookup_env(envs: &Vec<(Vec<char>, Vec<char>)>, name: &Vec<char>) -> (r: Option<usize>)
    ensures
        match r {
            Some(k) => k < envs@.len() && lookup(env_view(envs@), name@) == Some(envs@[k as int].1@),
            None => lookup(env_view(envs@), name@) is None,
        },
{
    let ghost ev = env_view(envs@);
    let mut i = envs.len();
    proof {
        assert(ev.subrange(0, i as int) =~= ev);
    }
    while i > 0
        invariant
            i <= envs@.len(),
            ev == env_view(envs@),
            lookup(ev, name@) == lookup(ev.subrange(0, i as int), name@),
        decreases i,
    {
        let ghost pre = ev.subrange(0, i as int);
        proof {
            assert(pre.drop_last() =~= ev.subrange(0, i - 1));
        }
        if chars_eq(&envs[i - 1].0, name) {
            return Some(i - 1);
        }
        i = i - 1;
    }
    proof {
        assert(ev.subrange(0, 0) =~= Seq::<(Seq<char>, Seq<char>)>::empty());
    }
    None
}

/// Appends `s` to `out`.
fn extend(out: &mut Vec<char>, s: &Vec<char>)
    ensures
        final(out)@ == old(out)@ + s@,
{
    let ghost before = out@;
    let mut k: usize = 0;
    while k < s.len()
        invariant
            k <= s@.len(),
            out@ == before + s@.subrange(0, k as int),
        decreases s@.len() - k,
    {
        out.push(s[k]);
        k = k + 1;
        proof {
            assert(out@ =~= before + s@.subrange(0, k as int));
        }
    }
    proof {
        assert(s@.subrange(0, s@.len() as int) =~= s@);
    }
}

impl Token {
    /// The text that the token stands for under the bindings `envs`.
    pub fn render(&self, envs: &Vec<(Vec<char>, Vec<char>)>) -> (r: Vec<char>)
        ensures
            r@ == render(self@, env_view(envs@)),
    {
        let ghost t = self@;
        let ghost ev = env_view(envs@);
        let mut out: Vec<char> = Vec::new();
        let mut i: usize = 0;
        proof {
            assert(t.subrange(0, t.len() as int) =~= t);
        }
        while i < self.words.len()
            invariant
                t == self@,
                ev == env_view(envs@),
                i <= t.len(),
                out@ + render(t.subrange(i as int, t.len() as int), ev) == render(t, ev),
            ensures
                out@ == render(t, ev),
            decreases t.len() - i,
        {
            let ghost rest = t.subrange(i as int, t.len() as int);
            let ghost before = out@;
            proof {
                assert(rest[0] == self.words@[i as int]@);
                assert(rest.drop_first() =~= t.subrange(i + 1, t.len() as int));
            }
            match &self.words[i] {
                Word::Empty => {},
                Word::Lit(s) => {
                    extend(&mut out, s);
                    proof {
                        assert((before + s@) + render(rest.drop_first(), ev) =~= before + (s@
                            + render(rest.drop_first(), ev)));
                    }
                },
                Word::Var(v) => {
                    match lookup_env(envs, v) {
                        Some(j) => {
                            extend(&mut out, &envs[j].1);
                            proof {
                                assert(ev[j as int].1 == envs@[j as int].1@);
                                assert((before + envs@[j as int].1@) + render(rest.drop_first(), ev)
                                    =~= before + (envs@[j as int].1@ + render(rest.drop_first(), ev)));
                            }
                        },
                        None => {},
                    }
                },
                Word::NewLine(_) => {
                    proof {
                        assert(out@ + Seq::<char>::empty() =~= out@);
                    }
                    break;
                },
            }
            i = i + 1;
            proof {
                if i == t.len() {
                    assert(out@ + Seq::<char>::empty() =~= out@);
                }
            }
        }
        out
    }
}

impl Lexer {
    /// The texts of the tokens of the next line, rendered under `envs`.
    pub fn next_line(&mut self, envs: &Vec<(Vec<char>, Vec<char>)>) -> (r: Vec<String>)
        requires
            old(self).wf(),
        ensures
            final(self).wf(),
            final(self).chars@ == old(self).chars@,
            ({
                let (ts, q, p) = one_line(old(self).quote, old(self).chars@, old(self).pos as nat);
                &&& final(self).quote == q
                &&& final(self).pos == p
                &&& r@.len() == ts.len()
                &&& r@.len() > 0 ==> p > old(self).pos
                &&& forall|k: int| 0 <= k < ts.len() ==> #[trigger] r@[k]@ == render(
                    ts[k],
                    env_view(envs@),
                )
            }),
    {
        let ghost q0 = self.quote;
        let ghost p0 = self.pos as nat;
        let ghost chars = self.chars@;
        let ghost ev = env_view(envs@);
        let ghost whole = one_line(q0, chars, p0);
        let ghost mut done: Seq<Seq<WordView>> = Seq::empty();
        let mut out: Vec<String> = Vec::new();
        loop
            invariant_except_break
                whole == ({
                    let rest = one_line(self.quote, chars, self.pos as nat);
                    (done + rest.0, rest.1, rest.2)
                }),
            invariant
                self.wf(),
                self.chars@ == chars,
                ev == env_view(envs@),
                p0 <= self.pos,
                done.len() > 0 ==> self.pos > p0,
                out@.len() == done.len(),
                forall|k: int| 0 <= k < done.len() ==> #[trigger] out@[k]@ == render(done[k], ev),
            ensures
                whole == (done, self.quote, self.pos as nat),
            decreases chars.len() - self.pos,
        {
            match self.next() {
                None => {
                    proof {
                        assert(done + Seq::<Seq<WordView>>::empty() =~= done);
                    }
                    break;
                },
                Some(t) => {
                    let ends = t.ends_line();
                    let text = t.render(envs);
                    let ghost out0 = out@;
                    let s = string_of(&text);
                    out.push(s);
                    let ghost prev = done;
                    proof {
                        done = done.push(t@);
                        assert(prev + seq![t@] =~= done);
                        assert(s@ == render(t@, ev));
                        assert forall|k: int| 0 <= k < done.len() implies #[trigger] out@[k]@ == render(done[k], ev) by {
                            if k < prev.len() {
                                assert(out@[k] == out0[k]);
                                assert(done[k] == prev[k]);
                            } else {
                                assert(out@[k] == s);
                                assert(done[k] == t@);
                            }
                        }
                    }
                    if ends {
                        proof {
                            assert(done + Seq::<Seq<WordView>>::empty() =~= done);
                        }
                        break;
                    }
                    proof {
                        let rest = one_line(self.quote, chars, self.pos as nat);
                        assert(prev + (seq![t@] + rest.0) =~= done + rest.0);
                    }
                },
            }
        }
        out
    }
}

/// The bindings as characters.
pub fn env_chars(envs: &Option<Vec<(String, String)>>) -> (r: Vec<(Vec<char>, Vec<char>)>)
    ensures
        env_view(r@) == match envs {
            None => Seq::<(Seq<char>, Seq<char>)>::empty(),
            Some(v) => v@.map_values(|p: (String, String)| (p.0@, p.1@)),
        },
{
    let mut out: Vec<(Vec<char>, Vec<char>)> = Vec::new();
    match envs {
        None => {
            proof {
                assert(env_view(out@) =~= Seq::<(Seq<char>, Seq<char>)>::empty());
            }
        },
        Some(v) => {
            let ghost e = v@.map_values(|p: (String, String)| (p.0@, p.1@));
            let mut i: usize = 0;
            while i < v.len()
                invariant
                    i <= v@.len(),
                    e == v@.map_values(|p: (String, String)| (p.0@, p.1@)),
                    env_view(out@) == e.subrange(0, i as int),
                decreases v@.len() - i,
            {
                let k = chars_of(&v[i].0);
                let x = chars_of(&v[i].1);
                let ghost before = out@;
                proof {
                    assert(e[i as int] == (k@, x@));
                }
                out.push((k, x));
                i = i + 1;
                proof {
                    assert(out@ == before.push((k, x)));
                    assert(env_view(out@) =~= env_view(before).push((k@, x@)));
                    assert(e.subrange(0, i as int) =~= e.subrange(0, i - 1).push(e[i - 1]));
                }
            }
            proof {
                assert(e.subrange(0, v@.len() as int) =~= e);
            }
        },
    }
    out
}


/// No word of the token is a line break.
pub open spec fn no_break(t: Seq<WordView>) -> bool {
    forall|k: int| 0 <= k < t.len() ==> !(#[trigger] t[k] is NewLine)
}

/// At most the last word of the token is a line break.
pub open spec fn break_at_end(t: Seq<WordView>) -> bool {
    forall|k: int| 0 <= k < t.len() - 1 ==> !(#[trigger] t[k] is NewLine)
}

proof fn lemma_edits_no_break(t: Seq<WordView>, c: char)
    requires
        no_break(t),
    ensures
        no_break(push(t, c)),
        no_break(split(t)),
        no_break(t.push(WordView::Var(Seq::empty()))),
        no_break(push(split(t), c)),
        break_at_end(t.push(WordView::NewLine(c))),
{
    let p = push(t, c);
    assert forall|k: int| 0 <= k < p.len() implies !(#[trigger] p[k] is NewLine) by {
        if k < t.len() - 1 || (t.len() > 0 && t.last() is Empty) || t.len() == 0 {
            if k < t.len() {
                assert(p[k] == t[k]);
            }
        }
    }
    let sp = split(t);
    assert forall|k: int| 0 <= k < sp.len() implies !(#[trigger] sp[k] is NewLine) by {
        if k < t.len() {
            assert(sp[k] == t[k]);
        }
    }
    let bv = t.push(WordView::Var(Seq::empty()));
    assert forall|k: int| 0 <= k < bv.len() implies !(#[trigger] bv[k] is NewLine) by {
        if k < t.len() {
            assert(bv[k] == t[k]);
        }
    }
    let ps = push(sp, c);
    assert forall|k: int| 0 <= k < ps.len() implies !(#[trigger] ps[k] is NewLine) by {
        if k < sp.len() {
            assert(ps[k] == sp[k]);
        }
    }
    let nl = t.push(WordView::NewLine(c));
    assert forall|k: int| 0 <= k < nl.len() - 1 implies !(#[trigger] nl[k] is NewLine) by {
        assert(nl[k] == t[k]);
    }
}

/// A line break only ever ends a token of the character lexer.
pub proof fn lemma_break_ends_token(q: Option<char>, t: Seq<WordView>, chars: Seq<char>, pos: nat, c: char)
    requires
        no_break(t),
    ensures
        break_at_end(lex(q, t, chars, pos, c).1),
    decreases chars.len() - pos, 1nat,
{
    lemma_edits_no_break(t, c);
    if pos < chars.len() {
        lemma_edits_no_break(t, chars[pos as int]);
    }
    lemma_go_on_break(None, t, chars, pos);
    lemma_go_on_break(q, t, chars, pos);
    lemma_go_on_break(Some(c), t, chars, pos);
    lemma_go_on_break(None, split(t), chars, pos);
    lemma_go_on_break(q, push(t, c), chars, pos);
    lemma_go_on_break(q, push(split(t), c), chars, pos);
    lemma_go_on_break(q, t.push(WordView::Var(Seq::empty())), chars, pos);
    lemma_go_on_break(Some(c), split(t), chars, pos);
    lemma_go_on_break(q, split(t), chars, pos);
    if pos < chars.len() {
        let esc = chars[pos as int];
        lemma_go_on_break(q, t, chars, pos + 1);
        lemma_go_on_break(q, push(t, esc), chars, pos + 1);
    }
}

/// The lexer goes on without breaking a line in the middle of a token.
pub proof fn lemma_go_on_break(q: Option<char>, t: Seq<WordView>, chars: Seq<char>, pos: nat)
    requires
        no_break(t),
    ensures
        break_at_end(go_on(q, t, chars, pos).1),
    decreases chars.len() - pos, 0nat,
{
    if pos < chars.len() {
        lemma_break_ends_token(q, t, chars, pos + 1, chars[pos as int]);
    } else {
        assert forall|k: int| 0 <= k < t.len() - 1 implies !(#[trigger] t[k] is NewLine) by {}
    }
}

/// The words `t` with the text `s` appended as literal text: to a trailing
/// literal where there is one, else as a literal word of its own.
pub open spec fn with_text(t: Seq<WordView>, s: Seq<char>) -> Seq<WordView> {
    if s.len() == 0 {
        t
    } else if t.len() > 0 && t.last() is Lit {
        t.drop_last().push(
            WordView::Lit(
                match t.last() {
                    WordView::Lit(x) => x,
                    _ => Seq::empty(),
                } + s,
            ),
        )
    } else {
        t.push(WordView::Lit(s))
    }
}

/// Inside single quotes every character up to the closing quote is literal
/// text: the lexer appends it as it is, and goes on unquoted after the
/// closing quote. No variable and no escape is read there.
pub proof fn lemma_single_quoted_is_literal(t: Seq<WordView>, chars: Seq<char>, pos: nat, k: nat)
    requires
        t.len() == 0 || t.last() is Lit || t.last() is Empty,
        pos <= k < chars.len(),
        forall|i: int| pos <= i < k ==> #[trigger] chars[i] != '\'',
        chars[k as int] == '\'',
    ensures
        go_on(Some('\''), t, chars, pos) == go_on(
            None,
            with_text(t, chars.subrange(pos as int, k as int)),
            chars,
            k + 1,
        ),
    decreases k - pos,
{
    let sub = chars.subrange(pos as int, k as int);
    if pos == k {
        assert(sub.len() == 0);
    } else {
        let c = chars[pos as int];
        let t2 = push(t, c);
        let rest = chars.subrange(pos + 1 as int, k as int);
        lemma_single_quoted_is_literal(t2, chars, pos + 1, k);
        assert(sub =~= seq![c] + rest);
        if t.len() > 0 && t.last() is Lit {
            let x = match t.last() {
                WordView::Lit(x) => x,
                _ => Seq::empty(),
            };
            assert(t2 == t.drop_last().push(WordView::Lit(x.push(c))));
            assert(t2.drop_last() =~= t.drop_last());
            assert(x.push(c) + rest =~= x + sub);
        } else {
            assert(t2 == t.push(WordView::Lit(seq![c])));
            assert(t2.drop_last() =~= t);
            assert(seq![c] + rest =~= sub);
        }
    }
}

/// Rendering a token that holds no line break, with one more word, renders
/// that word after the rest.
pub proof fn lemma_render_push(t: Seq<WordView>, w: WordView, envs: Seq<(Seq<char>, Seq<char>)>)
    requires
        no_break(t),
    ensures
        render(t.push(w), envs) == render(t, envs) + render(seq![w], envs),
    decreases t.len(),
{
    let r1 = render(Seq::<WordView>::empty(), envs);
    assert(seq![w].drop_first() =~= Seq::<WordView>::empty());
    if t.len() == 0 {
        assert(t.push(w) =~= seq![w]);
        assert(render(t, envs) + render(seq![w], envs) =~= render(seq![w], envs));
    } else {
        let tp = t.push(w);
        assert(tp[0] == t[0]);
        assert(tp.drop_first() =~= t.drop_first().push(w));
        assert(no_break(t.drop_first())) by {
            assert forall|k: int| 0 <= k < t.drop_first().len() implies !(#[trigger] t.drop_first()[k] is NewLine) by {
                assert(t.drop_first()[k] == t[k + 1]);
            }
        }
        assert(!(t[0] is NewLine));
        lemma_render_push(t.drop_first(), w, envs);
        let a = render(t.drop_first(), envs);
        let b = render(seq![w], envs);
        match t[0] {
            WordView::Lit(x) => {
                assert(x + (a + b) =~= (x + a) + b);
            },
            WordView::Var(v) => {
                match lookup(envs, v) {
                    Some(y) => {
                        assert(y + (a + b) =~= (y + a) + b);
                    },
                    None => {},
                }
            },
            _ => {},
        }
    }
}

/// Rendering words with text appended as literal text renders that text,
/// as it is, after the words: whatever the bindings, a single-quoted `$`
/// stays a `$`.
pub proof fn lemma_render_with_text(t: Seq<WordView>, s: Seq<char>, envs: Seq<(Seq<char>, Seq<char>)>)
    requires
        no_break(t),
    ensures
        render(with_text(t, s), envs) == render(t, envs) + s,
{
    let e = Seq::<WordView>::empty();
    assert(render(e, envs) == Seq::<char>::empty());
    if s.len() == 0 {
        assert(render(t, envs) + s =~= render(t, envs));
    } else if t.len() > 0 && t.last() is Lit {
        let x = match t.last() {
            WordView::Lit(x) => x,
            _ => Seq::empty(),
        };
        let d = t.drop_last();
        assert(no_break(d)) by {
            assert forall|k: int| 0 <= k < d.len() implies !(#[trigger] d[k] is NewLine) by {
                assert(d[k] == t[k]);
            }
        }
        assert(d.push(WordView::Lit(x)) =~= t);
        lemma_render_push(d, WordView::Lit(x), envs);
        lemma_render_push(d, WordView::Lit(x + s), envs);
        assert(seq![WordView::Lit(x)].drop_first() =~= e);
        assert(seq![WordView::Lit(x + s)].drop_first() =~= e);
        assert(render(seq![WordView::Lit(x)], envs) =~= x);
        assert(render(seq![WordView::Lit(x + s)], envs) =~= x + s);
        assert(render(d, envs) + (x + s) =~= (render(d, envs) + x) + s);
    } else {
        lemma_render_push(t, WordView::Lit(s), envs);
        assert(seq![WordView::Lit(s)].drop_first() =~= e);
        assert(render(seq![WordView::Lit(s)], envs) =~= s);
    }
}

/// A token that is a single-quoted text renders as that text, under any
/// bindings.
pub proof fn lemma_single_quoted_token(s: Seq<char>, envs: Seq<(Seq<char>, Seq<char>)>)
    requires
        forall|i: int| 0 <= i < s.len() ==> #[trigger] s[i] != '\'',
    ensures
        ({
            let chars = seq!['\''] + s + seq!['\''];
            next_token(None, chars, 0) matches Some((t, q, p)) && q is None && p == chars.len()
                && render(t, envs) == s
        }),
{
    let chars = seq!['\''] + s + seq!['\''];
    let k = s.len() + 1;
    assert(chars[0] == '\'');
    assert(chars[k as int] == '\'');
    assert forall|i: int| 1 <= i < k implies #[trigger] chars[i] != '\'' by {
        assert(chars[i] == s[i - 1]);
    }
    assert(skip_space(chars, 0) == 0);
    lemma_single_quoted_is_literal(Seq::empty(), chars, 1, k);
    assert(chars.subrange(1, k as int) =~= s);
    let e = Seq::<WordView>::empty();
    assert(no_break(e));
    lemma_render_with_text(e, s, envs);
    assert(render(e, envs) + s =~= s);
}

} // verus!
