use vstd::prelude::*;
use vstd::std_specs::iter::IteratorSpec;
use vstd::string::StringExecFns;
use crate::directive::{is_directive, should_strip};
use crate::lines::{
    lemma_first_newline_at, lemma_lines_hold_no_newline, lines_of, no_newline, split_lines,
    strip_cr,
};

verus! {

/// The lines that stay: those that are no directive, each as it was and in
/// the order in which they stood.
pub open spec fn retained(lines: Seq<Seq<char>>) -> Seq<Seq<char>> {
    lines.filter(|line: Seq<char>| !is_directive(line))
}

/// The output text: every line followed by a line feed.
pub open spec fn rendered(lines: Seq<Seq<char>>) -> Seq<char>
    decreases lines.len(),
{
    if lines.len() == 0 {
        Seq::empty()
    } else {
        rendered(lines.drop_last()) + lines.last().push('\n')
    }
}

/// What the filter makes of a whole text.
pub open spec fn stripped(text: Seq<char>) -> Seq<char> {
    rendered(retained(lines_of(text)))
}

/// The contents of a sequence of strings.
spec fn contents(lines: Seq<String>) -> Seq<Seq<char>> {
    lines.map_values(|line: String| line@)
}

/// How the retained lines grow when one more line is looked at.
pub proof fn lemma_retained_push(lines: Seq<Seq<char>>, line: Seq<char>)
    ensures
        retained(lines.push(line)) == if is_directive(line) {
            retained(lines)
        } else {
            retained(lines).push(line)
        },
{
    reveal(Seq::filter);
    assert(lines.push(line).drop_last() =~= lines);
}

/// Keeps the lines that are no directive.
pub fn retain_lines(lines: Vec<String>) -> (kept: Vec<String>)
    ensures
        kept.deep_view() == retained(lines.deep_view()),
{
    let ghost all = lines@;
    let ghost whole = lines.deep_view();
    let mut kept: Vec<String> = Vec::new();
    proof {
        reveal(Seq::filter);
        assert(contents(all) =~= whole);
        assert(contents(all.take(0)) =~= Seq::empty());
        assert(kept.deep_view() =~= Seq::empty());
    }
    for line in rest: lines
        invariant
            rest.seq() == all,
            contents(all) == whole,
            kept.deep_view() == retained(contents(all.take(rest.index()))),
    {
        proof {
            let seen: int = rest.index();
            assert(contents(all.take(seen + 1)) =~= contents(all.take(seen)).push(line@));
            lemma_retained_push(contents(all.take(seen)), line@);
        }
        if !should_strip(line.as_str()) {
            let ghost before = kept.deep_view();
            kept.push(line);
            proof {
                assert(kept.deep_view() =~= before.push(line@));
            }
        }
    }
    proof {
        assert(all.take(all.len() as int) =~= all);
    }
    kept
}

/// Writes the lines out as one text, each closed by a line feed.
pub fn render_lines(lines: &Vec<String>) -> (text: String)
    ensures
        text@ == rendered(lines.deep_view()),
{
    let mut text = String::new();
    let mut i: usize = 0;
    proof {
        assert(lines.deep_view().take(0) =~= Seq::empty());
    }
    while i < lines.len()
        invariant
            0 <= i <= lines.len(),
            text@ == rendered(lines.deep_view().take(i as int)),
        decreases lines.len() - i,
    {
        proof {
            let next = lines.deep_view().take(i + 1);
            assert(next.drop_last() =~= lines.deep_view().take(i as int));
            assert(next.last() == lines[i as int]@);
            assert(text@ + lines[i as int]@ + seq!['\n'] =~= text@ + lines[i as int]@.push('\n'));
        }
        text.append(lines[i].as_str());
        text.push('\n');
        i = i + 1;
    }
    proof {
        assert(lines.deep_view().take(i as int) =~= lines.deep_view());
    }
    text
}

/// The lines of `content` that are no directive.
pub fn kept_lines(content: &str) -> (kept: Vec<String>)
    ensures
        kept.deep_view() == retained(lines_of(content@)),
{
    retain_lines(split_lines(content))
}

/// Filters a whole text: the lines that are no directive, each closed by a
/// line feed.
pub fn strip_directives(content: &str) -> (text: String)
    ensures
        text@ == stripped(content@),
{
    let kept = kept_lines(content);
    render_lines(&kept)
}

/// The places in `lines` at which the retained lines stand, in rising order.
pub open spec fn retained_places(lines: Seq<Seq<char>>) -> Seq<int>
    decreases lines.len(),
{
    if lines.len() == 0 {
        Seq::empty()
    } else {
        let before = retained_places(lines.drop_last());
        if is_directive(lines.last()) {
            before
        } else {
            before.push(lines.len() - 1)
        }
    }
}

/// A line is among the retained lines if and only if it is among the lines
/// and is no directive.
pub proof fn lemma_retained_contains(lines: Seq<Seq<char>>, line: Seq<char>)
    ensures
        retained(lines).contains(line) <==> lines.contains(line) && !is_directive(line),
    decreases lines.len(),
{
    if lines.len() == 0 {
        reveal(Seq::filter);
    } else {
        let init = lines.drop_last();
        let last = lines.last();
        assert(lines =~= init.push(last));
        lemma_retained_push(init, last);
        lemma_retained_contains(init, line);
        if retained(lines).contains(line) {
            let k: int = choose|k: int| 0 <= k < retained(lines).len() && retained(lines)[k] == line;
            if !is_directive(last) && k == retained(init).len() {
                assert(lines[lines.len() - 1] == line);
            } else {
                assert(retained(init)[k] == line);
                let j: int = choose|j: int| 0 <= j < init.len() && init[j] == line;
                assert(lines[j] == line);
            }
        }
        if lines.contains(line) && !is_directive(line) {
            let j: int = choose|j: int| 0 <= j < lines.len() && lines[j] == line;
            if j == lines.len() - 1 {
                assert(retained(lines)[retained(init).len() as int] == line);
            } else {
                assert(init[j] == line);
                let k: int = choose|k: int| 0 <= k < retained(init).len() && retained(init)[k] == line;
                assert(retained(lines)[k] == line);
            }
        }
    }
}

/// The retained lines are the lines at the retained places, which rise and
/// are exactly the places of the lines that are no directive: every such
/// line stays, unchanged, and the lines that stay keep their order.
pub proof fn lemma_retained_in_order(lines: Seq<Seq<char>>)
    ensures
        retained_places(lines).len() == retained(lines).len(),
        forall|k: int|
            0 <= k < retained(lines).len() ==> 0 <= #[trigger] retained_places(lines)[k]
                < lines.len(),
        forall|k: int|
            0 <= k < retained(lines).len() ==> #[trigger] retained(lines)[k]
                == lines[retained_places(lines)[k]],
        forall|j: int, k: int|
            0 <= j < k < retained_places(lines).len() ==> #[trigger] retained_places(lines)[j]
                < #[trigger] retained_places(lines)[k],
        forall|i: int|
            0 <= i < lines.len() ==> (retained_places(lines).contains(i) <==> !is_directive(
                #[trigger] lines[i],
            )),
    decreases lines.len(),
{
    if lines.len() == 0 {
        reveal(Seq::filter);
    } else {
        let init = lines.drop_last();
        let last = lines.last();
        let places = retained_places(lines);
        let before = retained_places(init);
        assert(lines =~= init.push(last));
        lemma_retained_push(init, last);
        lemma_retained_in_order(init);
        assert forall|k: int| 0 <= k < retained(lines).len() implies #[trigger] retained(lines)[k]
            == lines[places[k]] by {
            if k < before.len() {
                assert(retained(init)[k] == init[before[k]]);
            }
        }
        assert forall|i: int| 0 <= i < lines.len() implies (places.contains(i) <==> !is_directive(
            #[trigger] lines[i],
        )) by {
            if places.contains(i) {
                let k: int = choose|k: int| 0 <= k < places.len() && places[k] == i;
                if k < before.len() {
                    assert(before[k] == i);
                    assert(before.contains(i));
                    assert(init[i] == lines[i]);
                }
            }
            if !is_directive(lines[i]) {
                if i == lines.len() - 1 {
                    assert(places[before.len() as int] == i);
                } else {
                    assert(init[i] == lines[i]);
                    let k: int = choose|k: int| 0 <= k < before.len() && before[k] == i;
                    assert(places[k] == i);
                }
            }
        }
    }
}

/// Filtering twice keeps what filtering once kept.
pub proof fn lemma_retained_idempotent(lines: Seq<Seq<char>>)
    ensures
        retained(retained(lines)) == retained(lines),
    decreases lines.len(),
{
    if lines.len() == 0 {
        reveal(Seq::filter);
    } else {
        let init = lines.drop_last();
        let last = lines.last();
        assert(lines =~= init.push(last));
        lemma_retained_push(init, last);
        lemma_retained_idempotent(init);
        if !is_directive(last) {
            lemma_retained_push(retained(init), last);
        }
    }
}

/// The output starts with its first line and a line feed.
pub proof fn lemma_rendered_prepend(line: Seq<char>, rest: Seq<Seq<char>>)
    ensures
        rendered(seq![line] + rest) == line.push('\n') + rendered(rest),
    decreases rest.len(),
{
    let all = seq![line] + rest;
    if rest.len() == 0 {
        assert(all.drop_last() =~= Seq::<Seq<char>>::empty());
        assert(all.last() == line);
        assert(rendered(all) =~= line.push('\n') + rendered(rest));
    } else {
        assert(all.drop_last() =~= seq![line] + rest.drop_last());
        assert(all.last() == rest.last());
        lemma_rendered_prepend(line, rest.drop_last());
        assert(rendered(all) == rendered(all.drop_last()) + rest.last().push('\n'));
        assert(rendered(rest) == rendered(rest.drop_last()) + rest.last().push('\n'));
        assert(rendered(all) =~= line.push('\n') + rendered(rest));
    }
}

/// Lines that hold no line feed and end with no carriage return are read
/// back from their output as they were.
pub proof fn lemma_lines_of_rendered(lines: Seq<Seq<char>>)
    requires
        forall|i: int| 0 <= i < lines.len() ==> no_newline(#[trigger] lines[i]),
        forall|i: int| 0 <= i < lines.len() ==> strip_cr(#[trigger] lines[i]) == lines[i],
    ensures
        lines_of(rendered(lines)) == lines,
    decreases lines.len(),
{
    if lines.len() > 0 {
        let first = lines[0];
        let rest = lines.drop_first();
        let text = rendered(lines);
        let n: int = first.len() as int;
        assert(lines =~= seq![first] + rest);
        lemma_rendered_prepend(first, rest);
        assert(text.take(n) =~= first);
        assert(text[n] == '\n');
        lemma_first_newline_at(text, n);
        assert(text.skip(n + 1) =~= rendered(rest));
        assert forall|i: int| 0 <= i < rest.len() implies no_newline(#[trigger] rest[i])
            && strip_cr(rest[i]) == rest[i] by {
            assert(rest[i] == lines[i + 1]);
        }
        lemma_lines_of_rendered(rest);
    }
}

/// Filtering the output again gives the same output, as long as no retained
/// line ends with a carriage return: such a line would lose it when the
/// output is split again.
pub proof fn lemma_stripped_idempotent(text: Seq<char>)
    requires
        forall|i: int|
            0 <= i < retained(lines_of(text)).len() ==> strip_cr(
                #[trigger] retained(lines_of(text))[i],
            ) == retained(lines_of(text))[i],
    ensures
        stripped(stripped(text)) == stripped(text),
{
    let lines = lines_of(text);
    let kept = retained(lines);
    lemma_lines_hold_no_newline(text);
    lemma_retained_in_order(lines);
    assert forall|i: int| 0 <= i < kept.len() implies no_newline(#[trigger] kept[i]) by {
        assert(kept[i] == lines[retained_places(lines)[i]]);
    }
    lemma_lines_of_rendered(kept);
    lemma_retained_idempotent(lines);
}

} // verus!
