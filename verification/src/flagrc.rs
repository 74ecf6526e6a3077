//! Shell-like flags files: tokens made of literal text, `$VARIABLES` and
//! line breaks, and their expansion into argument lists.

use vstd::prelude::*;
use vstd::utf8::{encode_utf8, valid_utf8, decode_utf8};
use crate::flagrc::nfa::{Lexer, run};

pub mod nfa;
pub mod chars;

verus! {

/// A piece of a token.
#[derive(Clone, Debug, PartialEq, Eq)]
pub enum Word {
    /// A dummy word that disappears when a token is rendered.
    Empty,
    /// Literal bytes.
    Lit(Vec<u8>),
    /// The name of a variable.
    Var(Vec<u8>),
    /// A line break that was not escaped.
    NewLine(u8),
}

/// The mathematical value of a word.
pub enum WordView {
    Empty,
    Lit(Seq<u8>),
    Var(Seq<u8>),
    NewLine(u8),
}

impl View for Word {
    type V = WordView;

    open spec fn view(&self) -> WordView {
        match self {
            Word::Empty => WordView::Empty,
            Word::Lit(v) => WordView::Lit(v@),
            Word::Var(v) => WordView::Var(v@),
            Word::NewLine(b) => WordView::NewLine(*b),
        }
    }
}

/// A single element of a line, made of words.
#[derive(Clone, Debug, PartialEq, Eq)]
pub struct Token {
    pub words: Vec<Word>,
}

impl View for Token {
    type V = Seq<WordView>;

    open spec fn view(&self) -> Seq<WordView> {
        self.words@.map_values(|w: Word| w@)
    }
}

/// Appends byte `b` to a trailing literal, or starts a new literal.
pub open spec fn push_lit(t: Seq<WordView>, b: u8) -> Seq<WordView> {
    if t.len() > 0 && t.last() is Lit {
        t.drop_last().push(
            WordView::Lit(
                match t.last() {
                    WordView::Lit(s) => s,
                    _ => Seq::empty(),
                }.push(b),
            ),
        )
    } else {
        t.push(WordView::Lit(seq![b]))
    }
}

/// Appends byte `b` to a trailing variable name, or starts a new variable.
pub open spec fn push_var(t: Seq<WordView>, b: u8) -> Seq<WordView> {
    if t.len() > 0 && t.last() is Var {
        t.drop_last().push(
            WordView::Var(
                match t.last() {
                    WordView::Var(s) => s,
                    _ => Seq::empty(),
                }.push(b),
            ),
        )
    } else {
        t.push(WordView::Var(seq![b]))
    }
}

/// Whether a token ends a line.
pub open spec fn ends_line(t: Seq<WordView>) -> bool {
    t.len() > 0 && t.last() is NewLine
}

impl Token {
    /// A token with no words.
    pub fn new() -> (r: Token)
        ensures
            r@ == Seq::<WordView>::empty(),
    {
        let r = Token { words: Vec::new() };
        proof {
            assert(r@ =~= Seq::<WordView>::empty());
        }
        r
    }

    /// Appends a literal byte.
    pub fn push_lit(&mut self, b: u8)
        ensures
            final(self)@ == push_lit(old(self)@, b),
    {
        let ghost t = self@;
        let ghost ws = self.words@;
        match self.words.pop() {
            Some(Word::Lit(mut v)) => {
                let ghost v0 = v@;
                v.push(b);
                self.words.push(Word::Lit(v));
                proof {
                    assert(t.last() == WordView::Lit(v0));
                    assert(self.words@ == ws.drop_last().push(Word::Lit(v)));
                    assert(self@ =~= t.drop_last().push(WordView::Lit(v0.push(b))));
                }
            },
            Some(w) => {
                self.words.push(w);
                let one = vec![b];
                proof {
                    assert(one@ =~= seq![b]);
                    assert(self.words@ =~= ws);
                }
                self.words.push(Word::Lit(one));
                proof {
                    assert(self@ =~= t.push(WordView::Lit(seq![b])));
                }
            },
            None => {
                let one = vec![b];
                proof {
                    assert(one@ =~= seq![b]);
                }
                self.words.push(Word::Lit(one));
                proof {
                    assert(self@ =~= t.push(WordView::Lit(seq![b])));
                }
            },
        }
    }

    /// Appends a byte of a variable name.
    pub fn push_var(&mut self, b: u8)
        ensures
            final(self)@ == push_var(old(self)@, b),
    {
        let ghost t = self@;
        let ghost ws = self.words@;
        match self.words.pop() {
            Some(Word::Var(mut v)) => {
                let ghost v0 = v@;
                v.push(b);
                self.words.push(Word::Var(v));
                proof {
                    assert(t.last() == WordView::Var(v0));
                    assert(self.words@ == ws.drop_last().push(Word::Var(v)));
                    assert(self@ =~= t.drop_last().push(WordView::Var(v0.push(b))));
                }
            },
            Some(w) => {
                self.words.push(w);
                let one = vec![b];
                proof {
                    assert(one@ =~= seq![b]);
                    assert(self.words@ =~= ws);
                }
                self.words.push(Word::Var(one));
                proof {
                    assert(self@ =~= t.push(WordView::Var(seq![b])));
                }
            },
            None => {
                let one = vec![b];
                proof {
                    assert(one@ =~= seq![b]);
                }
                self.words.push(Word::Var(one));
                proof {
                    assert(self@ =~= t.push(WordView::Var(seq![b])));
                }
            },
        }
    }

    /// Marks the end of a line.
    pub fn break_line(&mut self, b: u8)
        ensures
            final(self)@ == old(self)@.push(WordView::NewLine(b)),
    {
        let ghost t = self@;
        self.words.push(Word::NewLine(b));
        proof {
            assert(self@ =~= t.push(WordView::NewLine(b)));
        }
    }

    /// Whether the last word is a line break.
    pub fn ends_line(&self) -> (r: bool)
        ensures
            r == ends_line(self@),
    {
        let n = self.words.len();
        if n == 0 {
            false
        } else {
            match &self.words[n - 1] {
                Word::NewLine(_) => true,
                _ => false,
            }
        }
    }
}


/// Variable bindings as bytes: the name, then the value.
pub open spec fn env_view(envs: Seq<(Vec<u8>, Vec<u8>)>) -> Seq<(Seq<u8>, Seq<u8>)> {
    envs.map_values(|p: (Vec<u8>, Vec<u8>)| (p.0@, p.1@))
}

/// The value of variable `name`: that of its last binding, as when the
/// bindings are inserted into a map one after the other.
pub open spec fn lookup<A>(envs: Seq<(Seq<A>, Seq<A>)>, name: Seq<A>) -> Option<Seq<A>>
    decreases envs.len(),
{
    if envs.len() == 0 {
        None
    } else if envs.last().0 == name {
        Some(envs.last().1)
    } else {
        lookup(envs.drop_last(), name)
    }
}

/// The bytes that a token stands for: literals as they are, variables by
/// their values (nothing when unbound), up to the first line break.
pub open spec fn render(t: Seq<WordView>, envs: Seq<(Seq<u8>, Seq<u8>)>) -> Seq<u8>
    decreases t.len(),
{
    if t.len() == 0 {
        Seq::empty()
    } else {
        match t[0] {
            WordView::Empty => render(t.drop_first(), envs),
            WordView::Lit(s) => s + render(t.drop_first(), envs),
            WordView::Var(v) => match lookup(envs, v) {
                Some(x) => x + render(t.drop_first(), envs),
                None => render(t.drop_first(), envs),
            },
            WordView::NewLine(_) => Seq::empty(),
        }
    }
}

/// The tokens of one line: those that the lexer yields, from state `s` at
/// byte `pos`, up to and including the first one that ends a line, or up to
/// the first time it yields nothing; then the state and position after them.
pub open spec fn line(s: nfa::State, bytes: Seq<u8>, pos: nat) -> (Seq<Seq<WordView>>, nfa::State, nat)
    decreases bytes.len() - pos,
{
    if pos >= bytes.len() {
        (Seq::empty(), s, pos)
    } else {
        let (s2, t, p2) = run(s, Seq::empty(), bytes, pos);
        if t.len() == 0 || p2 <= pos || p2 > bytes.len() {
            (Seq::empty(), s2, p2)
        } else if ends_line(t) {
            (seq![t], s2, p2)
        } else {
            let rest = line(s2, bytes, p2);
            (seq![t] + rest.0, rest.1, rest.2)
        }
    }
}

/// The lexer does not get stuck on the tokens of the line that starts in
/// state `s` at byte `pos`: up to the first token that ends a line, or up
/// to the first time it yields nothing.
pub open spec fn line_clean(s: nfa::State, bytes: Seq<u8>, pos: nat) -> bool
    decreases bytes.len() - pos,
{
    if pos >= bytes.len() {
        true
    } else if !nfa::token_clean(s, bytes, pos) {
        false
    } else {
        let (s2, t, p2) = run(s, Seq::empty(), bytes, pos);
        if t.len() == 0 || p2 <= pos || p2 > bytes.len() || ends_line(t) {
            true
        } else {
            line_clean(s2, bytes, p2)
        }
    }
}

/// The text that `String::from_utf8_lossy` makes of some bytes.
pub uninterp spec fn utf8_lossy(bytes: Seq<u8>) -> Seq<char>;

/// Calls `String::from_utf8_lossy`, which decodes the bytes as UTF-8 and
/// puts U+FFFD in place of each invalid sequence. Its contract names the
/// result, and states that valid bytes are decoded as they are; it says
/// nothing of how invalid sequences are replaced.
#[verifier::external_body]
fn string_from_utf8_lossy(bytes: &Vec<u8>) -> (s: String)
    ensures
        s@ == utf8_lossy(bytes@),
        valid_utf8(bytes@) ==> s@ == decode_utf8(bytes@),
{
    String::from_utf8_lossy(bytes.as_slice()).into_owned()
}

/// Whether two byte strings are equal.
fn bytes_eq(a: &Vec<u8>, b: &Vec<u8>) -> (r: bool)
    ensures
        r == (a@ == b@),
{
    if a.len() != b.len() {
        return false;
    }
    let mut i: usize = 0;
    while i < a.len()
        invariant
            a@.len() == b@.len(),
            i <= a@.len(),
            forall|k: int| 0 <= k < i ==> a@[k] == b@[k],
        decreases a@.len() - i,
    {
        if a[i] != b[i] {
            return false;
        }
        i = i + 1;
    }
    proof {
        assert(a@ =~= b@);
    }
    true
}

/// The UTF-8 bytes of a string.
fn utf8_bytes(s: &String) -> (r: Vec<u8>)
    ensures
        r@ == encode_utf8(s@),
{
    let b = s.as_str().as_bytes();
    let mut out: Vec<u8> = Vec::new();
    let mut i: usize = 0;
    while i < b.len()
        invariant
            i <= b@.len(),
            b@ == encode_utf8(s@),
            out@ == b@.subrange(0, i as int),
        decreases b@.len() - i,
    {
        out.push(b[i]);
        i = i + 1;
        proof {
            assert(out@ =~= b@.subrange(0, i as int));
        }
    }
    proof {
        assert(out@ =~= b@);
    }
    out
}

/// The value bound to `name`, if any.
fn lookup_env(envs: &Vec<(Vec<u8>, Vec<u8>)>, name: &Vec<u8>) -> (r: Option<usize>)
    ensures
        match r {
            Some(k) => k < envs@.len() && lookup(env_view(envs@), name@) == Some(envs@[k as int].1@),
            None => lookup(env_view(envs@), name@) is None,
        },
{
    let ghost ev = env_view(envs@);
    let mut i = envs.len();
    proof {
        assert(ev.subrange(0, i as int) =~= ev);
    }
    while i > 0
        invariant
            i <= envs@.len(),
            ev == env_view(envs@),
            lookup(ev, name@) == lookup(ev.subrange(0, i as int), name@),
        decreases i,
    {
        let ghost pre = ev.subrange(0, i as int);
        proof {
            assert(pre.drop_last() =~= ev.subrange(0, i - 1));
        }
        if bytes_eq(&envs[i - 1].0, name) {
            return Some(i - 1);
        }
        i = i - 1;
    }
    proof {
        assert(ev.subrange(0, 0) =~= Seq::<(Seq<u8>, Seq<u8>)>::empty());
    }
    None
}

impl Token {
    /// The bytes that the token stands for under the bindings `envs`.
    pub fn render(&self, envs: &Vec<(Vec<u8>, Vec<u8>)>) -> (r: Vec<u8>)
        ensures
            r@ == render(self@, env_view(envs@)),
    {
        let ghost t = self@;
        let ghost ev = env_view(envs@);
        let mut out: Vec<u8> = Vec::new();
        let mut i: usize = 0;
        proof {
            assert(t.subrange(0, t.len() as int) =~= t);
        }
        while i < self.words.len()
            invariant
                t == self@,
                ev == env_view(envs@),
                i <= t.len(),
                out@ + render(t.subrange(i as int, t.len() as int), ev) == render(t, ev),
            ensures
                out@ == render(t, ev),
            decreases t.len() - i,
        {
            let ghost rest = t.subrange(i as int, t.len() as int);
            proof {
                assert(rest[0] == self.words@[i as int]@);
                assert(rest.drop_first() =~= t.subrange(i + 1, t.len() as int));
            }
            match &self.words[i] {
                Word::Empty => {},
                Word::Lit(s) => {
                    let ghost before = out@;
                    let mut k: usize = 0;
                    while k < s.len()
                        invariant
                            k <= s@.len(),
                            out@ == before + s@.subrange(0, k as int),
                        decreases s@.len() - k,
                    {
                        out.push(s[k]);
                        k = k + 1;
                        proof {
                            assert(out@ =~= before + s@.subrange(0, k as int));
                        }
                    }
                    proof {
                        assert(s@.subrange(0, s@.len() as int) =~= s@);
                        assert((before + s@) + render(rest.drop_first(), ev) =~= before + (s@
                            + render(rest.drop_first(), ev)));
                    }
                },
                Word::Var(v) => {
                    match lookup_env(envs, v) {
                        Some(j) => {
                            let val = &envs[j].1;
                            let ghost before = out@;
                            let mut k: usize = 0;
                            while k < val.len()
                                invariant
                                    k <= val@.len(),
                                    out@ == before + val@.subrange(0, k as int),
                                decreases val@.len() - k,
                            {
                                out.push(val[k]);
                                k = k + 1;
                                proof {
                                    assert(out@ =~= before + val@.subrange(0, k as int));
                                }
                            }
                            proof {
                                assert(ev[j as int].1 == val@);
                                assert(val@.subrange(0, val@.len() as int) =~= val@);
                                assert((before + val@) + render(rest.drop_first(), ev) =~= before
                                    + (val@ + render(rest.drop_first(), ev)));
                            }
                        },
                        None => {},
                    }
                },
                Word::NewLine(_) => {
                    proof {
                        assert(out@ + Seq::<u8>::empty() =~= out@);
                    }
                    break;
                },
            }
            i = i + 1;
            proof {
                if i == t.len() {
                    assert(out@ + Seq::<u8>::empty() =~= out@);
                }
            }
        }
        out
    }
}

/// The arguments of a flags file, one line at a time.
pub struct Tokens {
    pub lex: Lexer,
    pub envs: Vec<(Vec<u8>, Vec<u8>)>,
}

/// The bindings as UTF-8 bytes.
pub open spec fn encoded_envs(envs: Option<Vec<(String, String)>>) -> Seq<(Seq<u8>, Seq<u8>)> {
    match envs {
        None => Seq::empty(),
        Some(v) => v@.map_values(|p: (String, String)| (encode_utf8(p.0@), encode_utf8(p.1@))),
    }
}

impl Tokens {
    /// Tokens of `bytes`, with the variables bound in `envs`.
    pub fn new(bytes: Vec<u8>, envs: Option<Vec<(String, String)>>) -> (r: Tokens)
        ensures
            r.lex.bytes@ == bytes@,
            r.lex.pos == 0,
            r.lex.state == nfa::State::FindNextNonAsciiWhiteSpace,
            env_view(r.envs@) == encoded_envs(envs),
    {
        let mut out: Vec<(Vec<u8>, Vec<u8>)> = Vec::new();
        match &envs {
            None => {
                proof {
                    assert(env_view(out@) =~= encoded_envs(envs));
                }
            },
            Some(v) => {
                let ghost e = encoded_envs(envs);
                let mut i: usize = 0;
                while i < v.len()
                    invariant
                        i <= v@.len(),
                        e == v@.map_values(|p: (String, String)| (encode_utf8(p.0@), encode_utf8(p.1@))),
                        env_view(out@) == e.subrange(0, i as int),
                    decreases v@.len() - i,
                {
                    let k = utf8_bytes(&v[i].0);
                    let x = utf8_bytes(&v[i].1);
                    let ghost before = out@;
                    proof {
                        assert(e[i as int] == (k@, x@));
                    }
                    out.push((k, x));
                    i = i + 1;
                    proof {
                        assert(out@ == before.push((k, x)));
                        assert(env_view(out@) =~= env_view(before).push((k@, x@)));
                        assert(e.subrange(0, i as int) =~= e.subrange(0, i - 1).push(e[i - 1]));
                        assert(env_view(out@) =~= e.subrange(0, i as int));
                    }
                }
                proof {
                    assert(e.subrange(0, v@.len() as int) =~= e);
                }
            },
        }
        Tokens { lex: Lexer::new(bytes), envs: out }
    }

    /// Decides whether the lexer gets through the tokens of the next line
    /// without getting stuck.
    pub fn lexes_cleanly(&self) -> (r: bool)
        requires
            self.lex.wf(),
        ensures
            r == line_clean(self.lex.state, self.lex.bytes@, self.lex.pos as nat),
    {
        let mut bytes: Vec<u8> = Vec::new();
        let mut k: usize = 0;
        while k < self.lex.bytes.len()
            invariant
                k <= self.lex.bytes@.len(),
                bytes@ == self.lex.bytes@.subrange(0, k as int),
            decreases self.lex.bytes@.len() - k,
        {
            bytes.push(self.lex.bytes[k]);
            k = k + 1;
        }
        proof {
            assert(bytes@ =~= self.lex.bytes@);
        }
        let ghost target = line_clean(self.lex.state, self.lex.bytes@, self.lex.pos as nat);
        let mut lex = Lexer { bytes, pos: self.lex.pos, state: self.lex.state };
        loop
            invariant
                lex.wf(),
                lex.bytes@ == self.lex.bytes@,
                line_clean(lex.state, lex.bytes@, lex.pos as nat) == target,
                target == line_clean(self.lex.state, self.lex.bytes@, self.lex.pos as nat),
            decreases lex.bytes@.len() - lex.pos,
        {
            if lex.pos >= lex.bytes.len() {
                return true;
            }
            if !lex.lexes_cleanly() {
                return false;
            }
            let ghost s0 = lex.state;
            let ghost p0 = lex.pos as nat;
            match lex.next_token_nfa() {
                None => {
                    return true;
                },
                Some(t) => {
                    if t.ends_line() {
                        return true;
                    }
                    assert(line_clean(s0, lex.bytes@, p0) == line_clean(
                        lex.state,
                        lex.bytes@,
                        lex.pos as nat,
                    ));
                },
            }
        }
    }

    /// The arguments of the next line: each token rendered under the
    /// bindings and decoded as UTF-8; `None` when the lexer yields no token.
    pub fn next(&mut self) -> (r: Option<Vec<String>>)
        requires
            old(self).lex.wf(),
            line_clean(old(self).lex.state, old(self).lex.bytes@, old(self).lex.pos as nat),
        ensures
            final(self).lex.wf(),
            final(self).lex.bytes@ == old(self).lex.bytes@,
            env_view(final(self).envs@) == env_view(old(self).envs@),
            ({
                let (ts, s, p) = line(old(self).lex.state, old(self).lex.bytes@, old(self).lex.pos as nat);
                &&& final(self).lex.state == s
                &&& final(self).lex.pos == p
                &&& (r is None <==> ts.len() == 0)
                &&& r matches Some(v) ==> v@.len() == ts.len() && forall|k: int|
                    0 <= k < ts.len() ==> {
                        let b = render(ts[k], env_view(old(self).envs@));
                        &&& #[trigger] v@[k]@ == utf8_lossy(b)
                        &&& valid_utf8(b) ==> v@[k]@ == decode_utf8(b)
                    }
            }),
    {
        let ghost s0 = self.lex.state;
        let ghost p0 = self.lex.pos as nat;
        let ghost bytes = self.lex.bytes@;
        let ghost ev = env_view(self.envs@);
        let ghost whole = line(s0, bytes, p0);
        let ghost mut done: Seq<Seq<WordView>> = Seq::empty();
        let mut out: Vec<String> = Vec::new();
        loop
            invariant_except_break
                whole == ({
                    let rest = line(self.lex.state, bytes, self.lex.pos as nat);
                    (done + rest.0, rest.1, rest.2)
                }),
                line_clean(self.lex.state, bytes, self.lex.pos as nat),
            invariant
                self.lex.wf(),
                self.lex.bytes@ == bytes,
                env_view(self.envs@) == ev,
                out@.len() == done.len(),
                forall|k: int| 0 <= k < done.len() ==> {
                    let b = render(done[k], ev);
                    &&& #[trigger] out@[k]@ == utf8_lossy(b)
                    &&& valid_utf8(b) ==> out@[k]@ == decode_utf8(b)
                },
            ensures
                whole == (done, self.lex.state, self.lex.pos as nat),
            decreases bytes.len() - self.lex.pos,
        {
            let ghost st = self.lex.state;
            let ghost ps = self.lex.pos as nat;
            match self.lex.next_token_nfa() {
                None => {
                    proof {
                        assert(done + Seq::<Seq<WordView>>::empty() =~= done);
                    }
                    break;
                },
                Some(t) => {
                    let ends = t.ends_line();
                    let bytes_of_token = t.render(&self.envs);
                    let text = string_from_utf8_lossy(&bytes_of_token);
                    out.push(text);
                    let ghost prev = done;
                    proof {
                        done = done.push(t@);
                        assert(prev + seq![t@] =~= done);
                    }
                    if ends {
                        proof {
                            assert(done + Seq::<Seq<WordView>>::empty() =~= done);
                        }
                        break;
                    }
                    proof {
                        let rest = line(self.lex.state, bytes, self.lex.pos as nat);
                        assert(prev + (seq![t@] + rest.0) =~= done + rest.0);
                    }
                },
            }
        }
        if out.len() == 0 {
            None
        } else {
            Some(out)
        }
    }
}


/// The characters of each string.
pub open spec fn string_views(ls: Seq<String>) -> Seq<Seq<char>> {
    ls.map_values(|l: String| l@)
}

/// An entry of a flags file: the arguments of one logical line, such as
/// `gunicorn -b :$PORT main:app`.
#[derive(Clone, Debug, PartialEq, Eq)]
pub struct Entry {
    pub flag: Vec<String>,
}

/// Parses the lines of a flags file: comments start at `#`, lines left
/// blank are skipped, each token is rendered with the variables bound in
/// `envs`, and a backslash at the end of a line joins it with the next.
pub fn parse_lines(lines: &Vec<String>, envs: Option<Vec<(String, String)>>) -> (r: Vec<Entry>)
    ensures
        ({
            let text = chars::prepared(string_views(lines@));
            let ls = chars::all_lines(None, text, 0);
            let ev = match envs {
                None => Seq::<(Seq<char>, Seq<char>)>::empty(),
                Some(v) => v@.map_values(|p: (String, String)| (p.0@, p.1@)),
            };
            &&& r@.len() == ls.len()
            &&& forall|i: int| #![trigger r@[i]]
                0 <= i < ls.len() ==> r@[i].flag@.len() == ls[i].len() && forall|k: int|
                    0 <= k < ls[i].len() ==> #[trigger] r@[i].flag@[k]@ == chars::render(ls[i][k], ev)
        }),
{
    let mut ls: Vec<Vec<char>> = Vec::new();
    let mut i: usize = 0;
    while i < lines.len()
        invariant
            i <= lines@.len(),
            ls@.len() == i,
            chars::views(ls@) == string_views(lines@).subrange(0, i as int),
        decreases lines@.len() - i,
    {
        let l = chars::chars_of(&lines[i]);
        let ghost before = ls@;
        ls.push(l);
        i = i + 1;
        proof {
            assert forall|k: int| 0 <= k < i implies #[trigger] chars::views(ls@)[k]
                == string_views(lines@).subrange(0, i as int)[k] by {
                if k < i - 1 {
                    assert(ls@[k] == before[k]);
                    assert(chars::views(before)[k] == string_views(lines@).subrange(0, i - 1)[k]);
                }
            }
            assert(chars::views(ls@) =~= string_views(lines@).subrange(0, i as int));
        }
    }
    proof {
        assert(string_views(lines@).subrange(0, lines@.len() as int) =~= string_views(lines@));
    }
    let text = chars::prepare(&ls);
    let envs_c = chars::env_chars(&envs);
    let ghost ev = chars::env_view(envs_c@);
    let ghost whole = chars::all_lines(None, text@, 0);
    let mut lex = chars::Lexer::new(text);
    let mut out: Vec<Entry> = Vec::new();
    let ghost mut done: Seq<Seq<Seq<chars::WordView>>> = Seq::empty();
    loop
        invariant_except_break
            whole == done + chars::all_lines(lex.quote, lex.chars@, lex.pos as nat),
        invariant
            lex.wf(),
            lex.chars@ == text@,
            ev == chars::env_view(envs_c@),
            out@.len() == done.len(),
            forall|i: int| #![trigger out@[i]]
                0 <= i < done.len() ==> out@[i].flag@.len() == done[i].len() && forall|k: int|
                    0 <= k < done[i].len() ==> #[trigger] out@[i].flag@[k]@ == chars::render(done[i][k], ev),
        ensures
            whole == done,
        decreases text@.len() - lex.pos,
    {
        let ghost q = lex.quote;
        let ghost p = lex.pos as nat;
        let flag = lex.next_line(&envs_c);
        if flag.len() == 0 {
            proof {
                assert(done + Seq::<Seq<Seq<chars::WordView>>>::empty() =~= done);
            }
            break;
        }
        let ghost ts = chars::one_line(q, text@, p).0;
        let ghost prev = done;
        let ghost out0 = out@;
        let entry = Entry { flag };
        out.push(entry);
        proof {
            done = done.push(ts);
            assert(prev + (seq![ts] + chars::all_lines(lex.quote, lex.chars@, lex.pos as nat)) =~= done
                + chars::all_lines(lex.quote, lex.chars@, lex.pos as nat));
            assert forall|i: int| #![trigger out@[i]]
                0 <= i < done.len() implies out@[i].flag@.len() == done[i].len() && forall|k: int|
                    0 <= k < done[i].len() ==> #[trigger] out@[i].flag@[k]@ == chars::render(done[i][k], ev) by {
                if i < prev.len() {
                    assert(out@[i] == out0[i]);
                    assert(done[i] == prev[i]);
                } else {
                    assert(done[i] == ts);
                }
            }
        }
    }
    out
}

} // verus!
