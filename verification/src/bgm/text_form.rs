//! The song's text form (RON): finding the command lists of its tracks in the text and putting
//! rewritten lists back in their places. Turning the text into values and back is left to the
//! caller.

use vstd::prelude::*;

verus! {

/// The pattern of a track in the text form: its name, then the list of its commands (the one
/// group of the pattern).
pub const RON_COMMAND_PATTERN: &'static str = r#"name:\s*".*"(?:.|\n)*?commands:\s*(\[(?:.|\n)*?\])"#;

/// The texts of some strings.
pub open spec fn texts(v: Seq<String>) -> Seq<Seq<char>> {
    v.map_values(|s: String| s@)
}

/// The pieces of text `pieces` with the lists `lists` between them: the first piece, the first
/// list, the second piece, and so on, ending with the last piece.
pub open spec fn interleave(pieces: Seq<Seq<char>>, lists: Seq<Seq<char>>) -> Seq<char>
    decreases lists.len(),
{
    if lists.len() == 0 || pieces.len() == 0 {
        if pieces.len() == 0 {
            Seq::empty()
        } else {
            pieces[0]
        }
    } else {
        interleave(pieces.drop_last(), lists.drop_last()) + lists.last() + pieces.last()
    }
}

/// What cutting a text at the command lists that [`RON_COMMAND_PATTERN`] finds gives: the
/// pieces around the lists, and the lists.
pub uninterp spec fn ron_command_cut(text: Seq<char>) -> (Seq<Seq<char>>, Seq<Seq<char>>);

/// Cuts `text` at the command lists that [`RON_COMMAND_PATTERN`] finds, with
/// `regex::Regex::captures_iter`: the pieces of text around the lists, and the lists (the
/// pattern's group in each match). The regex crate yields the matches from left to right
/// without overlap, so the pieces and lists, put back together in turn, are the text; what the
/// pattern finds is named [`ron_command_cut`] and not spelled out.
#[verifier::external_body]
pub fn cut_command_lists(text: &str) -> (r: (Vec<String>, Vec<String>))
    ensures
        (texts(r.0@), texts(r.1@)) == ron_command_cut(text@),
        r.0@.len() == r.1@.len() + 1,
        interleave(texts(r.0@), texts(r.1@)) == text@,
{
    let re = regex::Regex::new(RON_COMMAND_PATTERN).unwrap();
    let mut pieces = Vec::new();
    let mut lists = Vec::new();
    let mut last: usize = 0;
    for captures in re.captures_iter(text) {
        let list = captures.get(1).unwrap();
        pieces.push(text[last..list.start()].to_string());
        lists.push(list.as_str().to_string());
        last = list.end();
    }
    pieces.push(text[last..].to_string());
    (pieces, lists)
}

/// Puts the lists `lists` between the pieces of text `pieces`, in turn (see [`interleave`]):
/// the inverse of [`cut_command_lists`].
pub fn splice_command_lists(pieces: &Vec<String>, lists: &Vec<String>) -> (r: String)
    requires
        pieces@.len() == lists@.len() + 1,
    ensures
        r@ == interleave(texts(pieces@), texts(lists@)),
{
    let ghost p = texts(pieces@);
    let ghost l = texts(lists@);
    let mut out = String::new();
    let n = lists.len();
    let mut i: usize = 0;
    proof {
        assert(l.take(0) =~= Seq::<Seq<char>>::empty());
        assert(p.take(1)[0] == p[0]);
        assert(out@ + p[0] =~= p[0]);
    }
    while i < n
        invariant
            n == lists@.len(),
            pieces@.len() == n + 1,
            p == texts(pieces@),
            l == texts(lists@),
            i <= n,
            out@ + p[i as int] == interleave(p.take(i + 1), l.take(i as int)),
        decreases n - i,
    {
        proof {
            assert(p.take(i + 2).drop_last() =~= p.take(i + 1));
            assert(l.take(i + 1).drop_last() =~= l.take(i as int));
            assert(p.take(i + 2).last() == p[i + 1]);
            assert(l.take(i + 1).last() == l[i as int]);
        }
        out.append(pieces[i].as_str());
        out.append(lists[i].as_str());
        i = i + 1;
        proof {
            assert(out@ + p[i as int] =~= interleave(p.take(i + 1), l.take(i as int)));
        }
    }
    out.append(pieces[n].as_str());
    proof {
        assert(p.take(n + 1) =~= p);
        assert(l.take(n as int) =~= l);
    }
    out
}

/// The parts of `t` between its line feeds, in order: one more than it has line feeds.
pub open spec fn nl_parts(t: Seq<char>) -> Seq<Seq<char>>
    decreases t.len(),
{
    if t.len() == 0 {
        seq![Seq::empty()]
    } else {
        let r = nl_parts(t.drop_last());
        if t.last() == '\n' {
            r.push(Seq::empty())
        } else {
            r.update(r.len() - 1, r.last().push(t.last()))
        }
    }
}

/// A line that a line feed ends, without the carriage return before that line feed.
pub open spec fn without_cr(l: Seq<char>) -> Seq<char> {
    if l.len() > 0 && l.last() == '\r' {
        l.drop_last()
    } else {
        l
    }
}

/// The lines of `t`, as `str::lines` gives them: the parts between line feeds, a carriage
/// return before a line feed left out, and no empty line after a final line feed.
pub open spec fn text_lines(t: Seq<char>) -> Seq<Seq<char>> {
    let parts = nl_parts(t);
    let n = if parts.last().len() == 0 { parts.len() - 1 } else { parts.len() as int };
    Seq::new(n as nat, |i: int| if i < parts.len() - 1 { without_cr(parts[i]) } else { parts[i] })
}

/// Eight spaces.
pub open spec fn indent8() -> Seq<char> {
    seq![' ', ' ', ' ', ' ', ' ', ' ', ' ', ' ']
}

/// The lines `ls`, each on a line of its own (after a line feed) indented by eight spaces.
pub open spec fn indented_lines(ls: Seq<Seq<char>>) -> Seq<char>
    decreases ls.len(),
{
    if ls.len() == 0 {
        Seq::empty()
    } else {
        indented_lines(ls.drop_last()) + seq!['\n'] + indent8() + ls.last()
    }
}

/// A list written out one item per line, as it stands among the tracks of the text form: the
/// opening bracket, then every line of `t` after its first indented by eight spaces on a line
/// of its own.
pub open spec fn indented_list(t: Seq<char>) -> Seq<char> {
    let ls = text_lines(t);
    seq!['['] + if ls.len() == 0 { Seq::empty() } else { indented_lines(ls.drop_first()) }
}

/// The lines after the first among the first `seg` parts of `parts`, those that a line feed
/// ends.
spec fn done_lines(parts: Seq<Seq<char>>, seg: int) -> Seq<Seq<char>> {
    Seq::new(if seg >= 1 { (seg - 1) as nat } else { 0 }, |j: int| without_cr(parts[j + 1]))
}

/// Indents a list written out one item per line (see [`indented_list`]) to stand among the
/// tracks of the text form.
pub fn indent_command_list(text: &str) -> (r: String)
    ensures
        r@ == indented_list(text@),
{
    let ghost t = text@;
    let n = text.unicode_len();
    let mut out = String::new();
    let open_bracket = "[";
    let line_feed = "\n";
    let spaces = "        ";
    proof {
        reveal_strlit("[");
        reveal_strlit("\n");
        reveal_strlit("        ");
        assert(t.take(0) =~= Seq::<char>::empty());
    }
    out.append(open_bracket);
    let mut start: usize = 0;
    let mut seg: usize = 0;
    let mut i: usize = 0;
    while i < n
        invariant
            n == t.len(),
            t == text@,
            open_bracket@ == seq!['['],
            line_feed@ == seq!['\n'],
            spaces@ == indent8(),
            start <= i <= n,
            seg <= i,
            nl_parts(t.take(i as int)).len() == seg + 1,
            nl_parts(t.take(i as int)).last() == t.subrange(start as int, i as int),
            out@ == seq!['['] + indented_lines(done_lines(nl_parts(t.take(i as int)), seg as int)),
        decreases n - i,
    {
        let ghost pi = nl_parts(t.take(i as int));
        let c = text.get_char(i);
        proof {
            assert(t.take(i + 1).drop_last() =~= t.take(i as int));
            assert(t.take(i + 1).last() == c);
        }
        if c == '\n' {
            let ghost pn = nl_parts(t.take(i + 1));
            assert(pn == pi.push(Seq::empty()));
            let end = if i > start && text.get_char(i - 1) == '\r' {
                i - 1
            } else {
                i
            };
            proof {
                assert(done_lines(pn, seg + 1) =~= if seg >= 1 {
                    done_lines(pi, seg as int).push(without_cr(pi[seg as int]))
                } else {
                    done_lines(pi, seg as int)
                });
                if i > start {
                    assert(t.subrange(start as int, i as int).last() == t[i - 1]);
                    assert(t.subrange(start as int, i as int).drop_last() =~= t.subrange(start as int, i - 1));
                }
            }
            if seg >= 1 {
                let line = text.substring_char(start, end);
                proof {
                    let ls = done_lines(pi, seg as int).push(without_cr(pi[seg as int]));
                    assert(ls.drop_last() =~= done_lines(pi, seg as int));
                    assert(line@ == without_cr(pi[seg as int]));
                }
                out.append(line_feed);
                out.append(spaces);
                out.append(line);
            }
            start = i + 1;
            seg = seg + 1;
            proof {
                assert(t.subrange(start as int, (i + 1) as int) =~= Seq::<char>::empty());
            }
        } else {
            proof {
                let pn = nl_parts(t.take(i + 1));
                assert(pn == pi.update(pi.len() - 1, pi.last().push(c)));
                assert(pn.last() =~= t.subrange(start as int, i + 1));
                assert(done_lines(pn, seg as int) =~= done_lines(pi, seg as int));
            }
        }
        i = i + 1;
    }
    proof {
        assert(t.take(n as int) =~= t);
    }
    let ghost parts = nl_parts(t);
    if start < n && seg >= 1 {
        let line = text.substring_char(start, n);
        out.append(line_feed);
        out.append(spaces);
        out.append(line);
        proof {
            let ls = text_lines(t);
            assert(ls.drop_first() =~= done_lines(parts, seg as int).push(parts[seg as int]));
            assert(ls.drop_first().drop_last() =~= done_lines(parts, seg as int));
        }
    } else {
        proof {
            let ls = text_lines(t);
            if seg >= 1 {
                assert(ls.drop_first() =~= done_lines(parts, seg as int));
            } else {
                assert(ls.len() <= 1);
                assert(done_lines(parts, seg as int) =~= Seq::<Seq<char>>::empty());
                if ls.len() == 1 {
                    assert(ls.drop_first() =~= Seq::<Seq<char>>::empty());
                }
            }
        }
    }
    out
}

} // verus!
