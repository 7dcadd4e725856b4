//! Doc comments of top-level items.
use vstd::prelude::*;

use crate::text::{chars_of, join, join_strings, push_char, strings_view};

verus! {

/// The pieces of `s` between newline characters (one more than there are
/// newlines).
pub open spec fn newline_pieces(s: Seq<char>) -> Seq<Seq<char>>
    decreases s.len(),
{
    if s.len() == 0 {
        seq![Seq::empty()]
    } else {
        let p = newline_pieces(s.drop_last());
        if s.last() == '\n' {
            p.push(Seq::empty())
        } else {
            p.update(p.len() - 1, p.last().push(s.last()))
        }
    }
}

/// A line ended by `\r\n` loses its `\r`.
pub open spec fn strip_cr(l: Seq<char>) -> Seq<char> {
    if l.len() > 0 && l.last() == '\r' {
        l.drop_last()
    } else {
        l
    }
}

/// `str::lines`: the text split at `\n` and `\r\n`, without the line
/// endings; a final line ending adds no empty line.
pub open spec fn text_lines(s: Seq<char>) -> Seq<Seq<char>> {
    let p = newline_pieces(s);
    let ended = p.drop_last().map_values(|l: Seq<char>| strip_cr(l));
    if p.last().len() == 0 {
        ended
    } else {
        ended.push(p.last())
    }
}

/// One doc line as a Go comment: `//` alone for an empty line.
pub open spec fn comment_line(l: Seq<char>) -> Seq<char> {
    if l.len() == 0 {
        "//"@
    } else {
        "// "@ + l
    }
}

/// The Go comment block for an item's doc text: one comment line per doc
/// line, each ended by a newline; empty when there is no doc or no line.
pub open spec fn doc_text(doc: Option<Seq<char>>) -> Seq<char> {
    match doc {
        None => Seq::empty(),
        Some(text) => {
            let ls = text_lines(text);
            if ls.len() == 0 {
                Seq::empty()
            } else {
                join(ls.map_values(|l: Seq<char>| comment_line(l)), "\n"@) + "\n"@
            }
        },
    }
}

proof fn lemma_pieces_nonempty(s: Seq<char>)
    ensures
        newline_pieces(s).len() >= 1,
    decreases s.len(),
{
    if s.len() > 0 {
        lemma_pieces_nonempty(s.drop_last());
    }
}

fn string_of(chars: &Vec<char>) -> (r: String)
    ensures
        r@ == chars@,
{
    let mut s = String::new();
    let mut i: usize = 0;
    while i < chars.len()
        invariant
            i <= chars@.len(),
            s@ == chars@.take(i as int),
        decreases chars@.len() - i,
    {
        push_char(&mut s, chars[i]);
        proof {
            assert(chars@.take(i + 1) =~= chars@.take(i as int).push(chars@[i as int]));
        }
        i += 1;
    }
    proof {
        assert(chars@.take(i as int) =~= chars@);
    }
    s
}

fn without_cr(mut line: Vec<char>) -> (r: Vec<char>)
    ensures
        r@ == strip_cr(line@),
{
    let n = line.len();
    if n > 0 && line[n - 1] == '\r' {
        line.pop();
    }
    line
}

/// The lines of `text` (`str::lines`).
fn lines_of(text: &str) -> (r: Vec<String>)
    ensures
        strings_view(r@) == text_lines(text@),
{
    let chars = chars_of(text);
    let mut done: Vec<String> = Vec::new();
    let mut current: Vec<char> = Vec::new();
    let mut i: usize = 0;
    proof {
        assert(chars@.take(0) =~= Seq::<char>::empty());
    }
    while i < chars.len()
        invariant
            i <= chars@.len(),
            chars@ == text@,
            newline_pieces(chars@.take(i as int)).len() >= 1,
            strings_view(done@) == newline_pieces(chars@.take(i as int)).drop_last().map_values(
                |l: Seq<char>| strip_cr(l),
            ),
            current@ == newline_pieces(chars@.take(i as int)).last(),
        decreases chars@.len() - i,
    {
        let ghost p = newline_pieces(chars@.take(i as int));
        let c = chars[i];
        proof {
            assert(chars@.take(i + 1).drop_last() =~= chars@.take(i as int));
            assert(chars@.take(i + 1).last() == c);
        }
        if c == '\n' {
            let finished = without_cr(current);
            let line = string_of(&finished);
            let ghost before = done@;
            done.push(line);
            current = Vec::new();
            proof {
                let q = newline_pieces(chars@.take(i + 1));
                assert(q == p.push(Seq::empty()));
                assert(q.drop_last() =~= p);
                assert(p =~= p.drop_last().push(p.last()));
                assert(strings_view(done@) =~= strings_view(before).push(strip_cr(p.last())));
                assert(p.map_values(|l: Seq<char>| strip_cr(l)) =~= p.drop_last().map_values(
                    |l: Seq<char>| strip_cr(l),
                ).push(strip_cr(p.last())));
            }
        } else {
            current.push(c);
            proof {
                let q = newline_pieces(chars@.take(i + 1));
                assert(q == p.update(p.len() - 1, p.last().push(c)));
                assert(q.drop_last() =~= p.drop_last());
            }
        }
        i += 1;
    }
    proof {
        assert(chars@.take(i as int) =~= text@);
    }
    if current.len() > 0 {
        let ghost before = done@;
        let line = string_of(&current);
        done.push(line);
        proof {
            assert(strings_view(done@) =~= strings_view(before).push(current@));
        }
    }
    done
}

/// The Go comment lines for an optional doc string.
pub fn emit_doc(doc: &Option<String>) -> (r: String)
    ensures
        r@ == doc_text(match doc {
            Some(t) => Some(t@),
            None => None,
        }),
{
    match doc {
        None => String::new(),
        Some(text) => {
            let lines = lines_of(text.as_str());
            if lines.len() == 0 {
                return String::new();
            }
            let ghost ls = strings_view(lines@);
            let mut commented: Vec<String> = Vec::new();
            let mut i: usize = 0;
            while i < lines.len()
                invariant
                    i <= lines@.len(),
                    ls == strings_view(lines@),
                    strings_view(commented@) == ls.take(i as int).map_values(
                        |l: Seq<char>| comment_line(l),
                    ),
                decreases lines@.len() - i,
            {
                proof {
                    reveal_strlit("//");
                    reveal_strlit("// ");
                }
                let line = if lines[i].unicode_len() == 0 {
                    String::from_str("//")
                } else {
                    let mut c = String::from_str("// ");
                    c.append(lines[i].as_str());
                    c
                };
                let ghost before = commented@;
                commented.push(line);
                proof {
                    assert(ls[i as int] == lines@[i as int]@);
                    assert(strings_view(commented@) =~= strings_view(before).push(
                        comment_line(ls[i as int]),
                    ));
                    assert(ls.take(i + 1).map_values(|l: Seq<char>| comment_line(l)) =~= ls.take(
                        i as int,
                    ).map_values(|l: Seq<char>| comment_line(l)).push(comment_line(ls[i as int])));
                }
                i += 1;
            }
            proof {
                assert(ls.take(i as int) =~= ls);
            }
            let mut out = join_strings(&commented, "\n");
            out.append("\n");
            out
        },
    }
}

} // verus!
