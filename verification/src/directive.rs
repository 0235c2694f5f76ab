use vstd::prelude::*;
use vstd::std_specs::iter::IteratorSpec;
use crate::whitespace::{
    all_whitespace, is_whitespace, lemma_trim_start_append, lemma_trim_start_blank,
    lemma_trim_start_fixed, lemma_trim_start_prepend, lemma_trim_start_step, trim_start,
    whitespace,
};

verus! {

/// True if `text` starts with `printf(` or with `stop(`.
pub open spec fn opens_directive(text: Seq<char>) -> bool {
    "printf("@.is_prefix_of(text) || "stop("@.is_prefix_of(text)
}

/// A line is a directive if, once its leading whitespace is taken off, it
/// starts with `printf(` or with `stop(`.
pub open spec fn is_directive(line: Seq<char>) -> bool {
    opens_directive(trim_start(line))
}

/// The text that an iteration still has before it: the character just read,
/// if there is one, and what the iterator has left.
spec fn ahead(cur: Option<char>, rest: Seq<char>) -> Seq<char> {
    match cur {
        Some(c) => seq![c] + rest,
        None => Seq::empty(),
    }
}

/// Tells whether `line`, without its leading whitespace, starts with `prefix`.
fn trimmed_starts_with(line: &str, prefix: &str) -> (b: bool)
    ensures
        b == prefix@.is_prefix_of(trim_start(line@)),
{
    let mut text = line.chars();
    let mut cur: Option<char> = text.next();
    let ghost mut skipped: int = 0;
    proof {
        assert(line@.skip(0) =~= line@);
        assert(ahead(cur, text.remaining()) =~= line@);
    }
    loop
        invariant
            0 <= skipped <= line@.len(),
            ahead(cur, text.remaining()) == line@.skip(skipped),
            trim_start(line@) == trim_start(line@.skip(skipped)),
            cur is None ==> text.remaining().len() == 0,
        ensures
            cur is Some ==> !whitespace(cur->0),
        decreases line@.len() - skipped,
    {
        match cur {
            Some(c) if is_whitespace(c) => {
                proof {
                    lemma_trim_start_step(line@.skip(skipped));
                    assert(line@.skip(skipped).drop_first() =~= line@.skip(skipped + 1));
                    assert(text.remaining() =~= line@.skip(skipped + 1));
                    skipped = skipped + 1;
                }
                cur = text.next();
                proof {
                    assert(ahead(cur, text.remaining()) =~= line@.skip(skipped));
                }
            },
            _ => {
                break ;
            },
        }
    }
    proof {
        assert(cur is Some ==> line@.skip(skipped)[0] == cur->0);
        lemma_trim_start_fixed(line@.skip(skipped));
    }
    let ghost trimmed = trim_start(line@);
    let mut pat = prefix.chars();
    let ghost mut k: int = 0;
    loop
        invariant
            trimmed == trim_start(line@),
            0 <= k <= prefix@.len(),
            k <= trimmed.len(),
            pat.remaining() == prefix@.skip(k),
            ahead(cur, text.remaining()) == trimmed.skip(k),
            cur is None ==> text.remaining().len() == 0,
            prefix@.take(k) == trimmed.take(k),
        decreases prefix@.len() - k,
    {
        let want = pat.next();
        match want {
            None => {
                proof {
                    assert(prefix@.take(k) =~= prefix@);
                }
                return true;
            },
            Some(p) => {
                match cur {
                    Some(c) if c == p => {
                        proof {
                            assert(prefix@.skip(k).drop_first() =~= prefix@.skip(k + 1));
                            assert(trimmed.skip(k).drop_first() =~= trimmed.skip(k + 1));
                            assert(trimmed.skip(k)[0] == c);
                            assert(prefix@.skip(k)[0] == p);
                            assert(prefix@.take(k + 1) =~= prefix@.take(k).push(p));
                            assert(trimmed.take(k + 1) =~= trimmed.take(k).push(c));
                        }
                        proof {
                            assert(text.remaining() =~= trimmed.skip(k + 1));
                            k = k + 1;
                        }
                        cur = text.next();
                        proof {
                            assert(ahead(cur, text.remaining()) =~= trimmed.skip(k));
                        }
                    },
                    _ => {
                        proof {
                            assert(prefix@.skip(k)[0] == p);
                            if prefix@.is_prefix_of(trimmed) {
                                assert(trimmed.len() > k);
                                assert(trimmed.skip(k)[0] == trimmed[k]);
                                assert(prefix@[k] == trimmed[k]);
                            }
                        }
                        return false;
                    },
                }
            },
        }
    }
}

/// Decides whether a line is left out of the output.
pub fn should_strip(line: &str) -> (b: bool)
    ensures
        b == is_directive(line@),
{
    trimmed_starts_with(line, "printf(") || trimmed_starts_with(line, "stop(")
}

/// The decision rests on the line without its leading whitespace alone: two
/// lines that are equal once trimmed are both directives or both not.
pub proof fn lemma_directive_by_trimmed(a: Seq<char>, b: Seq<char>)
    requires
        trim_start(a) == trim_start(b),
    ensures
        is_directive(a) == is_directive(b),
{
}

/// Whitespace before a line does not change the decision.
pub proof fn lemma_directive_ignores_indent(ws: Seq<char>, line: Seq<char>)
    requires
        all_whitespace(ws),
    ensures
        is_directive(ws + line) == is_directive(line),
{
    lemma_trim_start_prepend(ws, line);
}

/// Once a line is a directive, whatever follows on it does not change that.
pub proof fn lemma_directive_ignores_rest(line: Seq<char>, rest: Seq<char>)
    requires
        is_directive(line),
    ensures
        is_directive(line + rest),
{
    reveal_strlit("printf(");
    reveal_strlit("stop(");
    if all_whitespace(line) {
        lemma_trim_start_blank(line);
    } else {
        lemma_trim_start_append(line, rest);
    }
}

/// Whitespace at the end of a line does not change the decision.
pub proof fn lemma_directive_ignores_trailing_whitespace(line: Seq<char>, ws: Seq<char>)
    requires
        all_whitespace(ws),
    ensures
        is_directive(line + ws) == is_directive(line),
{
    reveal_strlit("printf(");
    reveal_strlit("stop(");
    if all_whitespace(line) {
        lemma_trim_start_blank(line);
        assert(all_whitespace(line + ws));
        lemma_trim_start_blank(line + ws);
    } else {
        lemma_trim_start_append(line, ws);
        let head = trim_start(line);
        if "printf("@.is_prefix_of(head + ws) && head.len() < 7 {
            assert((head + ws)[head.len() as int] == ws[0]);
            assert("printf("@[head.len() as int] == ws[0]);
        }
        if "stop("@.is_prefix_of(head + ws) && head.len() < 5 {
            assert((head + ws)[head.len() as int] == ws[0]);
            assert("stop("@[head.len() as int] == ws[0]);
        }
    }
}

} // verus!
