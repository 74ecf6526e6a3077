//! Procfiles: each entry is a name, a colon and a command line, which may go
//! on over the next lines after a trailing backslash.

use vstd::prelude::*;
use itertools::Itertools;
use crate::flagrc::chars::{
    chars_of, string_of, strip_comment, strip_comment_of, trim, trim_of, views,
};

verus! {

/// An entry of a Procfile.
#[derive(Clone, Debug, PartialEq, Eq)]
pub struct Entry {
    /// A name for the command, such as web or worker.
    pub name: String,
    /// The command to run, such as `gunicorn -b :$PORT main:app`.
    pub cmdline: Vec<String>,
}

/// Why a Procfile was refused.
#[derive(Clone, Copy, Debug, PartialEq, Eq)]
pub enum ParseError {
    /// The first line of an entry has no `:`.
    MissingColon,
    /// The first line of an entry starts with `:`.
    MissingName,
}

/// The lines that count: each without its comment, those left blank dropped.
pub open spec fn kept(lines: Seq<Seq<char>>) -> Seq<Seq<char>>
    decreases lines.len(),
{
    if lines.len() == 0 {
        Seq::empty()
    } else {
        let l = strip_comment(lines.last());
        kept(lines.drop_last()) + if trim(l).len() == 0 {
            Seq::empty()
        } else {
            seq![l]
        }
    }
}

/// A line that the next one continues: it ends with a backslash.
pub open spec fn continues(l: Seq<char>) -> bool {
    trim(l).len() > 0 && trim(l).last() == '\\'
}

/// The number of lines that `take_while_inclusive(continues)` yields: up to
/// and including the first one that does not continue, or all of them.
pub open spec fn chunk_len(ls: Seq<Seq<char>>) -> nat
    decreases ls.len(),
{
    if ls.len() == 0 {
        0
    } else if !continues(ls[0]) {
        1
    } else {
        1 + chunk_len(ls.drop_first())
    }
}

/// The position of the first `c` in `s`.
pub open spec fn index_of(s: Seq<char>, c: char) -> Option<nat>
    decreases s.len(),
{
    if s.len() == 0 {
        None
    } else if s[0] == c {
        Some(0)
    } else {
        match index_of(s.drop_first(), c) {
            Some(i) => Some(i + 1),
            None => None,
        }
    }
}

/// Drops the trailing backslashes and spaces.
pub open spec fn strip_tail(s: Seq<char>) -> Seq<char>
    decreases s.len(),
{
    if s.len() > 0 && (s.last() == '\\' || s.last() == ' ') {
        strip_tail(s.drop_last())
    } else {
        s
    }
}

/// The lines of a command: trimmed, without trailing backslashes and
/// spaces, those left empty dropped.
pub open spec fn cleaned(ls: Seq<Seq<char>>) -> Seq<Seq<char>>
    decreases ls.len(),
{
    if ls.len() == 0 {
        Seq::empty()
    } else {
        let l = strip_tail(trim(ls.last()));
        cleaned(ls.drop_last()) + if l.len() == 0 {
            Seq::empty()
        } else {
            seq![l]
        }
    }
}

/// The entry that a chunk of lines makes: the name before the first colon
/// of its first line, and the command made of the rest.
pub open spec fn entry_of(chunk: Seq<Seq<char>>) -> Result<(Seq<char>, Seq<Seq<char>>), ParseError> {
    let first = chunk[0];
    match index_of(first, ':') {
        None => Err(ParseError::MissingColon),
        Some(n) => if n == 0 {
            Err(ParseError::MissingName)
        } else {
            Ok(
                (
                    first.subrange(0, n as int),
                    cleaned(chunk.update(0, first.subrange(n + 1 as int, first.len() as int))),
                ),
            )
        },
    }
}

/// The entries of the lines that count, or the first error.
pub open spec fn entries_of(ls: Seq<Seq<char>>) -> Result<Seq<(Seq<char>, Seq<Seq<char>>)>, ParseError>
    decreases ls.len(),
{
    if ls.len() == 0 {
        Ok(Seq::empty())
    } else {
        let n = chunk_len(ls);
        if n == 0 || n > ls.len() {
            Ok(Seq::empty())
        } else {
            match entry_of(ls.subrange(0, n as int)) {
                Err(e) => Err(e),
                Ok(x) => match entries_of(ls.subrange(n as int, ls.len() as int)) {
                    Err(e) => Err(e),
                    Ok(rest) => Ok(seq![x] + rest),
                },
            }
        }
    }
}

/// Whether a line is continued by the next one.
pub fn line_continues(l: &Vec<char>) -> (r: bool)
    ensures
        r == continues(l@),
{
    let t = trim_of(l);
    t.len() > 0 && t[t.len() - 1] == '\\'
}

/// Calls `Itertools::take_while_inclusive` on the lines from `from` on, with
/// `line_continues` as the predicate, and counts the lines that it yields.
#[verifier::external_body]
fn take_chunk(lines: &Vec<Vec<char>>, from: usize) -> (r: usize)
    requires
        from <= lines@.len(),
    ensures
        r == chunk_len(views(lines@).subrange(from as int, lines@.len() as int)),
{
    lines[from..].iter().take_while_inclusive(|l| line_continues(l)).count()
}

/// Cuts the comment off each line and drops the lines left blank.
fn keep_lines(lines: &Vec<String>) -> (r: Vec<Vec<char>>)
    ensures
        views(r@) == kept(lines@.map_values(|l: String| l@)),
{
    let ghost all = lines@.map_values(|l: String| l@);
    let mut out: Vec<Vec<char>> = Vec::new();
    let mut i: usize = 0;
    proof {
        assert(all.subrange(0, 0) =~= Seq::<Seq<char>>::empty());
        assert(views(out@) =~= Seq::<Seq<char>>::empty());
    }
    while i < lines.len()
        invariant
            i <= lines@.len(),
            all == lines@.map_values(|l: String| l@),
            views(out@) == kept(all.subrange(0, i as int)),
        decreases lines@.len() - i,
    {
        let chars = chars_of(&lines[i]);
        let l = strip_comment_of(&chars);
        let t = trim_of(&l);
        let ghost before = out@;
        let ghost pre = all.subrange(0, i + 1);
        proof {
            assert(pre.drop_last() =~= all.subrange(0, i as int));
            assert(pre.last() == lines@[i as int]@);
        }
        if t.len() > 0 {
            out.push(l);
            proof {
                assert(views(out@) =~= views(before) + seq![l@]);
            }
        } else {
            proof {
                assert(views(before) + Seq::<Seq<char>>::empty() =~= views(before));
            }
        }
        i = i + 1;
    }
    proof {
        assert(all.subrange(0, lines@.len() as int) =~= all);
    }
    out
}

/// The position of the first `:` of a line.
fn find_colon(s: &Vec<char>) -> (r: Option<usize>)
    ensures
        match r {
            Some(n) => index_of(s@, ':') == Some(n as nat),
            None => index_of(s@, ':') is None,
        },
{
    let mut i: usize = 0;
    proof {
        assert(s@.subrange(0, s@.len() as int) =~= s@);
    }
    while i < s.len()
        invariant
            i <= s@.len(),
            index_of(s@, ':') == match index_of(s@.subrange(i as int, s@.len() as int), ':') {
                Some(k) => Some((k + i) as nat),
                None => None::<nat>,
            },
        decreases s@.len() - i,
    {
        proof {
            assert(s@.subrange(i as int, s@.len() as int).drop_first() =~= s@.subrange(
                i + 1,
                s@.len() as int,
            ));
        }
        if s[i] == ':' {
            return Some(i);
        }
        i = i + 1;
    }
    None
}

/// The line without trailing backslashes and spaces.
fn strip_tail_of(s: &Vec<char>) -> (r: Vec<char>)
    ensures
        r@ == strip_tail(s@),
{
    let mut out: Vec<char> = Vec::new();
    let mut end = s.len();
    proof {
        assert(s@.subrange(0, end as int) =~= s@);
    }
    while end > 0 && (s[end - 1] == '\\' || s[end - 1] == ' ')
        invariant
            end <= s@.len(),
            strip_tail(s@) == strip_tail(s@.subrange(0, end as int)),
        decreases end,
    {
        proof {
            assert(s@.subrange(0, end as int).drop_last() =~= s@.subrange(0, end - 1));
        }
        end = end - 1;
    }
    let mut k: usize = 0;
    while k < end
        invariant
            k <= end <= s@.len(),
            out@ == s@.subrange(0, k as int),
        decreases end - k,
    {
        out.push(s[k]);
        k = k + 1;
        proof {
            assert(out@ =~= s@.subrange(0, k as int));
        }
    }
    out
}

/// The characters of `s` from `from` on.
fn tail_of(s: &Vec<char>, from: usize) -> (r: Vec<char>)
    requires
        from <= s@.len(),
    ensures
        r@ == s@.subrange(from as int, s@.len() as int),
{
    let mut out: Vec<char> = Vec::new();
    let mut k: usize = from;
    while k < s.len()
        invariant
            from <= k <= s@.len(),
            out@ == s@.subrange(from as int, k as int),
        decreases s@.len() - k,
    {
        out.push(s[k]);
        k = k + 1;
        proof {
            assert(out@ =~= s@.subrange(from as int, k as int));
        }
    }
    out
}

/// The entry that the lines `from..to` make.
fn make_entry(ls: &Vec<Vec<char>>, from: usize, to: usize) -> (r: Result<Entry, ParseError>)
    requires
        from < to <= ls@.len(),
    ensures
        match (r, entry_of(views(ls@).subrange(from as int, to as int))) {
            (Ok(e), Ok((name, cmd))) => e.name@ == name && e.cmdline@.len() == cmd.len() && forall|k: int|
                0 <= k < cmd.len() ==> #[trigger] e.cmdline@[k]@ == cmd[k],
            (Err(e), Err(f)) => e == f,
            _ => false,
        },
{
    let ghost chunk = views(ls@).subrange(from as int, to as int);
    let first = &ls[from];
    assert(chunk[0] == first@);
    match find_colon(first) {
        None => Err(ParseError::MissingColon),
        Some(n) => {
            proof {
                lemma_index_of(first@, ':');
            }
            if n == 0 {
                return Err(ParseError::MissingName);
            }
            let mut name_chars: Vec<char> = Vec::new();
            let mut k: usize = 0;
            while k < n
                invariant
                    k <= n < first@.len(),
                    name_chars@ == first@.subrange(0, k as int),
                decreases n - k,
            {
                name_chars.push(first[k]);
                k = k + 1;
                proof {
                    assert(name_chars@ =~= first@.subrange(0, k as int));
                }
            }
            let len = first.len();
            assert(n < len);
            let rest = tail_of(first, n + 1);
            let ghost lines = chunk.update(0, first@.subrange(n + 1, first@.len() as int));
            let mut cmd: Vec<String> = Vec::new();
            let ghost mut done: Seq<Seq<char>> = Seq::empty();
            let mut i: usize = from;
            proof {
                assert(lines.subrange(0, 0) =~= Seq::<Seq<char>>::empty());
            }
            while i < to
                invariant
                    from <= i <= to <= ls@.len(),
                    chunk == views(ls@).subrange(from as int, to as int),
                    lines == chunk.update(0, first@.subrange(n + 1, first@.len() as int)),
                    rest@ == first@.subrange(n + 1, first@.len() as int),
                    first == ls@[from as int],
                    lines.len() == to - from,
                    done == cleaned(lines.subrange(0, i - from)),
                    cmd@.len() == done.len(),
                    forall|k: int| 0 <= k < done.len() ==> #[trigger] cmd@[k]@ == done[k],
                decreases to - i,
            {
                let line = if i == from {
                    &rest
                } else {
                    &ls[i]
                };
                proof {
                    assert(line@ == lines[i - from]);
                }
                let t = trim_of(line);
                let c = strip_tail_of(&t);
                let ghost pre = lines.subrange(0, i - from + 1);
                proof {
                    assert(pre.drop_last() =~= lines.subrange(0, i - from));
                    assert(pre.last() == line@);
                }
                if c.len() > 0 {
                    let s = string_of(&c);
                    let ghost cmd0 = cmd@;
                    cmd.push(s);
                    proof {
                        let d0 = done;
                        done = done + seq![c@];
                        assert forall|k: int| 0 <= k < done.len() implies #[trigger] cmd@[k]@ == done[k] by {
                            if k < d0.len() {
                                assert(cmd@[k] == cmd0[k]);
                            }
                        }
                    }
                } else {
                    proof {
                        assert(done + Seq::<Seq<char>>::empty() =~= done);
                    }
                }
                i = i + 1;
            }
            proof {
                assert(lines.subrange(0, to - from) =~= lines);
            }
            Ok(Entry { name: string_of(&name_chars), cmdline: cmd })
        },
    }
}

/// Parses the lines of a Procfile: comments start at `#`, blank lines are
/// skipped, and a trailing backslash continues an entry on the next line.
pub fn parse_lines(lines: &Vec<String>) -> (r: Result<Vec<Entry>, ParseError>)
    ensures
        match (r, entries_of(kept(lines@.map_values(|l: String| l@)))) {
            (Ok(v), Ok(es)) => v@.len() == es.len() && forall|i: int| #![trigger v@[i]]
                0 <= i < es.len() ==> v@[i].name@ == es[i].0 && v@[i].cmdline@.len() == es[i].1.len()
                    && forall|k: int| 0 <= k < es[i].1.len() ==> #[trigger] v@[i].cmdline@[k]@ == es[i].1[k],
            (Err(e), Err(f)) => e == f,
            _ => false,
        },
{
    let ls = keep_lines(lines);
    let ghost all = views(ls@);
    let mut out: Vec<Entry> = Vec::new();
    let ghost mut done: Seq<(Seq<char>, Seq<Seq<char>>)> = Seq::empty();
    let mut i: usize = 0;
    proof {
        assert(all.subrange(0, all.len() as int) =~= all);
    }
    while i < ls.len()
        invariant
            i <= ls@.len(),
            all == views(ls@),
            all == kept(lines@.map_values(|l: String| l@)),
            entries_of(all) == match entries_of(all.subrange(i as int, all.len() as int)) {
                Err(e) => Err(e),
                Ok(rest) => Ok(done + rest),
            },
            out@.len() == done.len(),
            forall|k: int| #![trigger out@[k]]
                0 <= k < done.len() ==> out@[k].name@ == done[k].0 && out@[k].cmdline@.len()
                    == done[k].1.len() && forall|j: int|
                    0 <= j < done[k].1.len() ==> #[trigger] out@[k].cmdline@[j]@ == done[k].1[j],
        decreases ls@.len() - i,
    {
        let ghost tail = all.subrange(i as int, all.len() as int);
        let n = take_chunk(&ls, i);
        proof {
            lemma_chunk_len_bounds(tail);
        }
        let next = i + n;
        proof {
            assert(tail.subrange(0, n as int) =~= all.subrange(i as int, next as int));
            assert(tail.subrange(n as int, tail.len() as int) =~= all.subrange(
                next as int,
                all.len() as int,
            ));
        }
        match make_entry(&ls, i, next) {
            Err(e) => {
                proof {
                    assert(entry_of(tail.subrange(0, n as int)) == Err::<(Seq<char>, Seq<Seq<char>>), ParseError>(e));
                    assert(entries_of(tail) == Err::<Seq<(Seq<char>, Seq<Seq<char>>)>, ParseError>(e));
                }
                return Err(e);
            },
            Ok(entry) => {
                let ghost x = entry_of(all.subrange(i as int, next as int))->Ok_0;
                let ghost out0 = out@;
                let ghost d0 = done;
                out.push(entry);
                proof {
                    done = done.push(x);
                    assert(d0 + (seq![x] + Seq::<(Seq<char>, Seq<Seq<char>>)>::empty()) =~= done);
                    assert forall|rest: Seq<(Seq<char>, Seq<Seq<char>>)>| d0 + (seq![x] + rest)
                        =~= #[trigger] (done + rest) by {}
                    assert forall|k: int| #![trigger out@[k]]
                        0 <= k < done.len() implies out@[k].name@ == done[k].0 && out@[k].cmdline@.len()
                        == done[k].1.len() && forall|j: int|
                        0 <= j < done[k].1.len() ==> #[trigger] out@[k].cmdline@[j]@ == done[k].1[j] by {
                        if k < d0.len() {
                            assert(out@[k] == out0[k]);
                        }
                    }
                }
                i = next;
            },
        }
    }
    proof {
        assert(all.subrange(i as int, all.len() as int) =~= Seq::<Seq<char>>::empty());
        assert(done + Seq::<(Seq<char>, Seq<Seq<char>>)>::empty() =~= done);
    }
    Ok(out)
}

/// A chunk holds at least one line of a non-empty list, and no more than all.
proof fn lemma_chunk_len_bounds(ls: Seq<Seq<char>>)
    ensures
        ls.len() > 0 ==> 1 <= chunk_len(ls) <= ls.len(),
        ls.len() == 0 ==> chunk_len(ls) == 0,
    decreases ls.len(),
{
    if ls.len() > 0 {
        lemma_chunk_len_bounds(ls.drop_first());
    }
}

/// The first `c` lies inside `s`.
proof fn lemma_index_of(s: Seq<char>, c: char)
    ensures
        index_of(s, c) matches Some(n) ==> n < s.len() && s[n as int] == c,
    decreases s.len(),
{
    if s.len() > 0 && s[0] != c {
        lemma_index_of(s.drop_first(), c);
    }
}


/// A well-formed command line: not empty, and with no trailing backslash or
/// space.
pub open spec fn clean_line(l: Seq<char>) -> bool {
    l.len() > 0 && l.last() != '\\' && l.last() != ' '
}

proof fn lemma_index_prefix(s: Seq<char>, c: char)
    ensures
        index_of(s, c) matches Some(n) ==> index_of(s.subrange(0, n as int), c) is None,
    decreases s.len(),
{
    lemma_index_of(s, c);
    if s.len() > 0 && s[0] != c {
        lemma_index_prefix(s.drop_first(), c);
        if let Some(n) = index_of(s, c) {
            let p = s.subrange(0, n as int);
            assert(p[0] == s[0]);
            assert(p.drop_first() =~= s.drop_first().subrange(0, n - 1));
        }
    }
}

proof fn lemma_strip_tail(s: Seq<char>)
    ensures
        strip_tail(s).len() > 0 ==> clean_line(strip_tail(s)),
    decreases s.len(),
{
    if s.len() > 0 && (s.last() == '\\' || s.last() == ' ') {
        lemma_strip_tail(s.drop_last());
    }
}

/// Only a tail of backslashes and spaces goes: what is left is a prefix of
/// the line, every character dropped is a backslash or a space, and what is
/// left, unless empty, ends in neither.
pub proof fn lemma_strip_tail_drops_only_tail(s: Seq<char>)
    ensures
        strip_tail(s).len() <= s.len(),
        strip_tail(s) =~= s.subrange(0, strip_tail(s).len() as int),
        forall|i: int| strip_tail(s).len() <= i < s.len() ==> #[trigger] s[i] == '\\' || s[i] == ' ',
        strip_tail(s).len() > 0 ==> strip_tail(s).last() != '\\' && strip_tail(s).last() != ' ',
    decreases s.len(),
{
    if s.len() > 0 && (s.last() == '\\' || s.last() == ' ') {
        let d = s.drop_last();
        lemma_strip_tail_drops_only_tail(d);
        assert forall|i: int| strip_tail(s).len() <= i < s.len() implies #[trigger] s[i] == '\\' || s[i] == ' ' by {
            if i < d.len() {
                assert(s[i] == d[i]);
            }
        }
    }
}

proof fn lemma_cleaned(ls: Seq<Seq<char>>)
    ensures
        forall|j: int| 0 <= j < cleaned(ls).len() ==> clean_line(#[trigger] cleaned(ls)[j]),
    decreases ls.len(),
{
    if ls.len() > 0 {
        lemma_cleaned(ls.drop_last());
        lemma_strip_tail(trim(ls.last()));
        let c = cleaned(ls);
        let pre = cleaned(ls.drop_last());
        assert forall|j: int| 0 <= j < c.len() implies clean_line(#[trigger] c[j]) by {
            if j < pre.len() {
                assert(c[j] == pre[j]);
            }
        }
    }
}

/// Every entry of a Procfile that parses has a name that is not empty and
/// holds no colon, and a command whose lines are not empty and end with
/// neither a backslash nor a space.
pub proof fn lemma_entries_shape(ls: Seq<Seq<char>>)
    requires
        entries_of(ls) is Ok,
    ensures
        forall|k: int| 0 <= k < entries_of(ls)->Ok_0.len() ==> {
            let e = #[trigger] entries_of(ls)->Ok_0[k];
            &&& e.0.len() > 0
            &&& index_of(e.0, ':') is None
            &&& forall|j: int| 0 <= j < e.1.len() ==> clean_line(#[trigger] e.1[j])
        },
    decreases ls.len(),
{
    if ls.len() > 0 {
        let n = chunk_len(ls);
        lemma_chunk_len_bounds(ls);
        let chunk = ls.subrange(0, n as int);
        let rest = ls.subrange(n as int, ls.len() as int);
        lemma_entries_shape(rest);
        lemma_index_prefix(chunk[0], ':');
        lemma_index_of(chunk[0], ':');
        assert(entry_of(chunk) is Ok);
        if let Some(c) = index_of(chunk[0], ':') {
            assert(c > 0);
            assert(entry_of(chunk)->Ok_0.0 == chunk[0].subrange(0, c as int));
            lemma_cleaned(chunk.update(0, chunk[0].subrange(c + 1 as int, chunk[0].len() as int)));
        }
        let es = entries_of(ls)->Ok_0;
        let tail = entries_of(rest)->Ok_0;
        let x = entry_of(chunk)->Ok_0;
        assert(es == seq![x] + tail);
        assert forall|k: int| 0 <= k < es.len() implies {
            let e = #[trigger] es[k];
            &&& e.0.len() > 0
            &&& index_of(e.0, ':') is None
            &&& forall|j: int| 0 <= j < e.1.len() ==> clean_line(#[trigger] e.1[j])
        } by {
            if k > 0 {
                assert(es[k] == tail[k - 1]);
            } else {
                assert(es[k] == x);
            }
        }
    }
}

} // verus!
