//! The manifest's text: one edit per line, blank lines skipped.
use vstd::prelude::*;
use vstd::string::*;

verus! {

/// Whether `c` is white space, as Unicode's `White_Space` property has it.
pub open spec fn is_white_space(c: char) -> bool {
    ||| '\u{9}' <= c <= '\u{d}'
    ||| c == ' '
    ||| c == '\u{85}'
    ||| c == '\u{a0}'
    ||| c == '\u{1680}'
    ||| '\u{2000}' <= c <= '\u{200a}'
    ||| c == '\u{2028}'
    ||| c == '\u{2029}'
    ||| c == '\u{202f}'
    ||| c == '\u{205f}'
    ||| c == '\u{3000}'
}

/// A line with nothing but white space.
pub open spec fn blank(line: Seq<char>) -> bool {
    forall|i: int| 0 <= i < line.len() ==> is_white_space(#[trigger] line[i])
}

/// Where the first newline of `t` is; its length if it has none.
pub open spec fn first_newline(t: Seq<char>) -> int
    decreases t.len(),
{
    if t.len() == 0 {
        0
    } else if t[0] == '\n' {
        0
    } else {
        1 + first_newline(t.drop_first())
    }
}

/// A line read up to its newline, without a carriage return that ends it.
pub open spec fn strip_cr(line: Seq<char>) -> Seq<char> {
    if line.len() > 0 && line.last() == '\r' {
        line.drop_last()
    } else {
        line
    }
}

/// The lines of `t` that are not blank. Lines end at a newline, which is
/// dropped with a carriage return just before it; the text after the last
/// newline is a last line.
pub open spec fn edit_lines(t: Seq<char>) -> Seq<Seq<char>>
    decreases t.len(),
{
    if t.len() == 0 {
        Seq::empty()
    } else {
        let i = first_newline(t);
        let line = if i < t.len() {
            strip_cr(t.take(i))
        } else {
            t
        };
        let rest = if i < t.len() {
            proof {
                lemma_first_newline(t);
            }
            edit_lines(t.skip(i + 1))
        } else {
            Seq::empty()
        };
        if blank(line) {
            rest
        } else {
            seq![line] + rest
        }
    }
}

/// The first newline lies within the text, or at its end when it has none;
/// no newline comes before it.
pub proof fn lemma_first_newline(t: Seq<char>)
    ensures
        0 <= first_newline(t) <= t.len(),
        first_newline(t) < t.len() ==> t[first_newline(t)] == '\n',
        forall|j: int| 0 <= j < first_newline(t) ==> t[j] != '\n',
    decreases t.len(),
{
    if t.len() > 0 && t[0] != '\n' {
        lemma_first_newline(t.drop_first());
        assert forall|j: int| 0 <= j < first_newline(t) implies t[j] != '\n' by {
            if j > 0 {
                assert(t[j] == t.drop_first()[j - 1]);
            }
        }
    }
}

/// A text whose first newline is at `i`.
proof fn lemma_first_newline_at(t: Seq<char>, i: int)
    requires
        0 <= i <= t.len(),
        forall|j: int| 0 <= j < i ==> t[j] != '\n',
        i < t.len() ==> t[i] == '\n',
    ensures
        first_newline(t) == i,
    decreases t.len(),
{
    if t.len() > 0 && i > 0 {
        assert forall|j: int| 0 <= j < i - 1 implies t.drop_first()[j] != '\n' by {
            assert(t.drop_first()[j] == t[j + 1]);
        }
        lemma_first_newline_at(t.drop_first(), i - 1);
    }
}

fn is_white_space_char(c: char) -> (r: bool)
    ensures
        r == is_white_space(c),
{
    ('\u{9}' <= c && c <= '\u{d}') || c == ' ' || c == '\u{85}' || c == '\u{a0}' || c
        == '\u{1680}' || ('\u{2000}' <= c && c <= '\u{200a}') || c == '\u{2028}' || c
        == '\u{2029}' || c == '\u{202f}' || c == '\u{205f}' || c == '\u{3000}'
}

fn is_blank(line: &str) -> (r: bool)
    ensures
        r == blank(line@),
{
    let n = line.unicode_len();
    let mut i: usize = 0;
    while i < n
        invariant
            n == line@.len(),
            i <= n,
            forall|j: int| 0 <= j < i ==> is_white_space(#[trigger] line@[j]),
        decreases n - i,
    {
        if !is_white_space_char(line.get_char(i)) {
            return false;
        }
        i = i + 1;
    }
    true
}

/// The lines of the manifest's text that hold edits, in order: the text is
/// split into lines as a buffered reader reads them, and blank lines are
/// skipped.
pub fn manifest_edit_lines(text: &str) -> (r: Vec<String>)
    ensures
        r@.len() == edit_lines(text@).len(),
        forall|i: int| 0 <= i < r@.len() ==> (#[trigger] r@[i])@ == edit_lines(text@)[i],
{
    let ghost t = text@;
    let n = text.unicode_len();
    let mut out: Vec<String> = Vec::new();
    let mut start: usize = 0;
    let mut i: usize = 0;
    assert(t.skip(0) =~= t);
    while i < n
        invariant
            t == text@,
            n == t.len(),
            start <= i <= n,
            forall|j: int| start <= j < i ==> t[j] != '\n',
            edit_lines(t).len() == out@.len() + edit_lines(t.skip(start as int)).len(),
            forall|k: int| 0 <= k < out@.len() ==> (#[trigger] out@[k])@ == edit_lines(t)[k],
            forall|k: int|
                0 <= k < edit_lines(t.skip(start as int)).len() ==> edit_lines(t)[out@.len() + k]
                    == #[trigger] edit_lines(t.skip(start as int))[k],
        decreases n - i,
    {
        if text.get_char(i) == '\n' {
            let ghost s = t.skip(start as int);
            let ghost k = (i - start) as int;
            proof {
                assert forall|j: int| 0 <= j < k implies s[j] != '\n' by {
                    assert(s[j] == t[start + j]);
                }
                lemma_first_newline_at(s, k);
            }
            let mut end = i;
            if end > start && text.get_char(end - 1) == '\r' {
                end = end - 1;
            }
            let line = text.substring_char(start, end);
            proof {
                assert(line@ =~= strip_cr(s.take(k)));
                assert(s.skip(k + 1) =~= t.skip(i + 1));
            }
            if !is_blank(line) {
                let ghost before = out@;
                out.push(line.to_owned());
                proof {
                    assert forall|m: int| 0 <= m < edit_lines(t.skip(i + 1)).len() implies edit_lines(t)[out@.len() + m]
                        == #[trigger] edit_lines(t.skip(i + 1))[m] by {
                        assert(edit_lines(s)[m + 1] == edit_lines(t.skip(i + 1))[m]);
                    }
                    assert(edit_lines(s)[0] == line@);
                }
            } else {
                proof {
                    assert(edit_lines(s) == edit_lines(t.skip(i + 1)));
                }
            }
            start = i + 1;
        }
        i = i + 1;
    }
    if start < n {
        let line = text.substring_char(start, n);
        let ghost s = t.skip(start as int);
        proof {
            assert forall|j: int| 0 <= j < s.len() implies s[j] != '\n' by {
                assert(s[j] == t[start + j]);
            }
            lemma_first_newline_at(s, s.len() as int);
            assert(line@ =~= s);
        }
        if !is_blank(line) {
            out.push(line.to_owned());
            proof {
                assert(edit_lines(s)[0] == line@);
            }
        }
    } else {
        proof {
            assert(t.skip(start as int) =~= Seq::<char>::empty());
        }
    }
    out
}

/// The text of a manifest written line by line: each line, then a newline.
pub open spec fn manifest_text(ls: Seq<Seq<char>>) -> Seq<char>
    decreases ls.len(),
{
    if ls.len() == 0 {
        Seq::empty()
    } else {
        ls[0] + seq!['\n'] + manifest_text(ls.drop_first())
    }
}

/// A manifest written line by line reads back those lines, when each holds
/// no newline, is not blank and does not end with a carriage return (as a
/// line of JSON does).
pub proof fn lemma_manifest_lines_roundtrip(ls: Seq<Seq<char>>)
    requires
        forall|i: int, j: int| 0 <= i < ls.len() && 0 <= j < ls[i].len() ==> #[trigger] ls[i][j] != '\n',
        forall|i: int| 0 <= i < ls.len() ==> !blank(#[trigger] ls[i]),
        forall|i: int| 0 <= i < ls.len() && ls[i].len() > 0 ==> (#[trigger] ls[i]).last() != '\r',
    ensures
        edit_lines(manifest_text(ls)) == ls,
    decreases ls.len(),
{
    if ls.len() > 0 {
        let l = ls[0];
        let rest = ls.drop_first();
        let t = manifest_text(ls);
        assert(t == l + seq!['\n'] + manifest_text(rest));
        assert forall|j: int| 0 <= j < l.len() implies t[j] != '\n' by {
            assert(t[j] == l[j]);
            assert(ls[0][j] != '\n');
        }
        assert(t[l.len() as int] == '\n');
        lemma_first_newline_at(t, l.len() as int);
        assert(t.take(l.len() as int) =~= l);
        assert(!blank(ls[0]));
        assert(l.len() > 0);
        assert(strip_cr(l) == l);
        assert(t.skip(l.len() + 1 as int) =~= manifest_text(rest));
        assert forall|i: int, j: int| 0 <= i < rest.len() && 0 <= j < rest[i].len() implies #[trigger] rest[i][j] != '\n' by {
            assert(rest[i] == ls[i + 1]);
        }
        assert forall|i: int| 0 <= i < rest.len() implies !blank(#[trigger] rest[i]) by {
            assert(rest[i] == ls[i + 1]);
        }
        assert forall|i: int| 0 <= i < rest.len() && rest[i].len() > 0 implies (#[trigger] rest[i]).last() != '\r' by {
            assert(rest[i] == ls[i + 1]);
        }
        lemma_manifest_lines_roundtrip(rest);
        assert(seq![l] + rest =~= ls);
    } else {
        assert(manifest_text(ls) =~= Seq::<char>::empty());
    }
}

} // verus!
