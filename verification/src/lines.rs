use vstd::prelude::*;
use vstd::std_specs::iter::IteratorSpec;

verus! {

/// `String::push` appends one character to the end of the string and leaves
/// the characters before it as they were.
pub assume_specification[ String::push ](s: &mut String, ch: char)
    ensures
        final(s)@ == old(s)@.push(ch),
;

/// Where the first line feed of `text` stands, or the length of `text` if it
/// holds none.
pub open spec fn first_newline(text: Seq<char>) -> nat
    decreases text.len(),
{
    if text.len() == 0 || text[0] == '\n' {
        0
    } else {
        1 + first_newline(text.drop_first())
    }
}

/// A line's content: what stands before its line feed, without the carriage
/// return that may close it.
pub open spec fn strip_cr(line: Seq<char>) -> Seq<char> {
    if line.len() > 0 && line.last() == '\r' {
        line.drop_last()
    } else {
        line
    }
}

/// The lines of a text. A line ends at a line feed, or at a carriage return
/// followed by a line feed; neither belongs to the line. What follows the
/// last line feed is a line too, unless it is empty, and is kept whole.
pub open spec fn lines_of(text: Seq<char>) -> Seq<Seq<char>>
    decreases text.len(),
{
    if text.len() == 0 {
        Seq::empty()
    } else {
        let n: int = first_newline(text) as int;
        if n >= text.len() {
            seq![text]
        } else {
            seq![strip_cr(text.take(n))] + lines_of(text.skip(n + 1))
        }
    }
}

/// True if `text` holds no line feed.
pub open spec fn no_newline(text: Seq<char>) -> bool {
    forall|i: int| 0 <= i < text.len() ==> #[trigger] text[i] != '\n'
}

/// The first line feed of a text is the one before which there is none.
pub proof fn lemma_first_newline_at(text: Seq<char>, n: int)
    requires
        0 <= n <= text.len(),
        no_newline(text.take(n)),
        n < text.len() ==> text[n] == '\n',
    ensures
        first_newline(text) == n,
    decreases n,
{
    if n > 0 {
        assert(text.take(n)[0] == text[0]);
        assert forall|i: int| 0 <= i < n - 1 implies #[trigger] text.drop_first().take(n - 1)[i]
            != '\n' by {
            assert(text.take(n)[i + 1] == text[i + 1]);
        }
        lemma_first_newline_at(text.drop_first(), n - 1);
    }
}

/// Before the first line feed there is none, and the first line feed is one
/// unless the text holds none at all.
pub proof fn lemma_first_newline(text: Seq<char>)
    ensures
        first_newline(text) <= text.len(),
        no_newline(text.take(first_newline(text) as int)),
        first_newline(text) < text.len() ==> text[first_newline(text) as int] == '\n',
    decreases text.len(),
{
    if text.len() > 0 && text[0] != '\n' {
        let tail = text.drop_first();
        let n: int = first_newline(tail) as int;
        lemma_first_newline(tail);
        assert forall|i: int| 0 <= i < n + 1 implies #[trigger] text.take(n + 1)[i] != '\n' by {
            if i > 0 {
                assert(tail.take(n)[i - 1] == text[i]);
            }
        }
        if n + 1 < text.len() {
            assert(tail[n] == text[n + 1]);
        }
    }
}

/// No line holds a line feed.
pub proof fn lemma_lines_hold_no_newline(text: Seq<char>)
    ensures
        forall|i: int| 0 <= i < lines_of(text).len() ==> no_newline(#[trigger] lines_of(text)[i]),
    decreases text.len(),
{
    if text.len() > 0 {
        let n: int = first_newline(text) as int;
        lemma_first_newline(text);
        if n >= text.len() {
            assert(text.take(n) =~= text);
        } else {
            let tail = text.skip(n + 1);
            lemma_lines_hold_no_newline(tail);
            assert forall|i: int| 0 <= i < lines_of(text).len() implies no_newline(
                #[trigger] lines_of(text)[i],
            ) by {
                if i == 0 {
                    let first = text.take(n);
                    assert forall|j: int| 0 <= j < strip_cr(first).len() implies #[trigger] strip_cr(
                        first,
                    )[j] != '\n' by {
                        assert(strip_cr(first)[j] == first[j]);
                    }
                } else {
                    assert(lines_of(text)[i] == lines_of(tail)[i - 1]);
                }
            }
        }
    }
}

/// Splits a text into its lines.
pub fn split_lines(content: &str) -> (lines: Vec<String>)
    ensures
        lines.deep_view() == lines_of(content@),
{
    let ghost text = content@;
    let mut lines: Vec<String> = Vec::new();
    let mut cur = String::new();
    // A carriage return is held back until the next character shows whether
    // it closes the line or belongs to it.
    let mut held_cr = false;
    let mut rest = content.chars();
    let ghost mut start: int = 0;
    let ghost mut pos: int = 0;
    proof {
        assert(text.skip(0) =~= text);
        assert(lines.deep_view() + lines_of(text) =~= lines_of(text));
        assert(cur@ =~= text.subrange(0, 0));
    }
    loop
        invariant
            text == content@,
            0 <= start <= pos <= text.len(),
            rest.remaining() == text.skip(pos),
            lines.deep_view() + lines_of(text.skip(start)) == lines_of(text),
            no_newline(text.subrange(start, pos)),
            cur@ + (if held_cr {
                seq!['\r']
            } else {
                Seq::empty()
            }) == text.subrange(start, pos),
            !held_cr ==> strip_cr(cur@) == cur@,
        decreases text.len() - pos,
    {
        let ghost line = text.subrange(start, pos);
        let ghost tail = text.skip(start);
        proof {
            assert(tail.take(pos - start) =~= line);
        }
        match rest.next() {
            None => {
                proof {
                    assert(pos == text.len());
                    lemma_first_newline_at(tail, pos - start);
                }
                if held_cr {
                    cur.push('\r');
                }
                proof {
                    assert(cur@ =~= line);
                    assert(tail =~= line);
                }
                if !cur.as_str().is_empty() {
                    let ghost before = lines.deep_view();
                    lines.push(cur);
                    proof {
                        assert(lines.deep_view() =~= before + seq![line]);
                    }
                } else {
                    proof {
                        assert(lines.deep_view() + Seq::<Seq<char>>::empty() =~= lines.deep_view());
                    }
                }
                return lines;
            },
            Some(c) => {
                proof {
                    assert(text.skip(pos)[0] == text[pos]);
                    assert(text.skip(pos).drop_first() =~= text.skip(pos + 1));
                    assert(tail[pos - start] == c);
                }
                if c == '\n' {
                    proof {
                        lemma_first_newline_at(tail, pos - start);
                        assert(strip_cr(line) =~= cur@);
                        assert(tail.skip(pos - start + 1) =~= text.skip(pos + 1));
                    }
                    let ghost before = lines.deep_view();
                    lines.push(cur);
                    cur = String::new();
                    held_cr = false;
                    proof {
                        assert(lines.deep_view() =~= before + seq![strip_cr(line)]);
                        assert(before + (seq![strip_cr(line)] + lines_of(text.skip(pos + 1)))
                            =~= lines.deep_view() + lines_of(text.skip(pos + 1)));
                        start = pos + 1;
                        pos = pos + 1;
                        assert(cur@ =~= text.subrange(start, pos));
                    }
                } else {
                    if held_cr {
                        cur.push('\r');
                    }
                    if c == '\r' {
                        held_cr = true;
                    } else {
                        held_cr = false;
                        cur.push(c);
                    }
                    proof {
                        pos = pos + 1;
                        assert(text.subrange(start, pos) =~= line.push(c));
                        assert forall|i: int| 0 <= i < pos - start implies #[trigger] text.subrange(
                            start,
                            pos,
                        )[i] != '\n' by {
                            if i < pos - start - 1 {
                                assert(line[i] != '\n');
                            }
                        }
                    }
                }
            },
        }
    }
}

} // verus!
