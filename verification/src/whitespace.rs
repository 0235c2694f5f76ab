use vstd::prelude::*;

verus! {

/// The characters that count as whitespace when a line is trimmed: the code
/// points with the Unicode property `White_Space`.
pub open spec fn whitespace(c: char) -> bool {
    let n: u32 = c as u32;
    ||| 0x09 <= n <= 0x0d
    ||| n == 0x20
    ||| n == 0x85
    ||| n == 0xa0
    ||| n == 0x1680
    ||| 0x2000 <= n <= 0x200a
    ||| n == 0x2028
    ||| n == 0x2029
    ||| n == 0x202f
    ||| n == 0x205f
    ||| n == 0x3000
}

/// How many whitespace characters stand at the start of `s`.
pub open spec fn leading_whitespace(s: Seq<char>) -> nat
    decreases s.len(),
{
    if s.len() > 0 && whitespace(s[0]) {
        1 + leading_whitespace(s.drop_first())
    } else {
        0
    }
}

/// `s` without its leading whitespace; what follows is left as it is.
pub open spec fn trim_start(s: Seq<char>) -> Seq<char> {
    s.skip(leading_whitespace(s) as int)
}

/// True if every character of `s` is whitespace.
pub open spec fn all_whitespace(s: Seq<char>) -> bool {
    forall|i: int| 0 <= i < s.len() ==> whitespace(#[trigger] s[i])
}

/// Tells whether `c` is a whitespace character.
pub fn is_whitespace(c: char) -> (b: bool)
    ensures
        b == whitespace(c),
{
    let n: u32 = c as u32;
    (0x09 <= n && n <= 0x0d) || n == 0x20 || n == 0x85 || n == 0xa0 || n == 0x1680 || (0x2000 <= n
        && n <= 0x200a) || n == 0x2028 || n == 0x2029 || n == 0x202f || n == 0x205f || n == 0x3000
}

/// The leading whitespace never exceeds the text.
pub proof fn lemma_leading_whitespace_bound(s: Seq<char>)
    ensures
        leading_whitespace(s) <= s.len(),
    decreases s.len(),
{
    if s.len() > 0 && whitespace(s[0]) {
        lemma_leading_whitespace_bound(s.drop_first());
    }
}

/// Trimming skips a whitespace character at the start.
pub proof fn lemma_trim_start_step(s: Seq<char>)
    requires
        s.len() > 0,
        whitespace(s[0]),
    ensures
        trim_start(s) == trim_start(s.drop_first()),
{
    lemma_leading_whitespace_bound(s.drop_first());
    assert(s.skip(1 + leading_whitespace(s.drop_first()) as int) =~= s.drop_first().skip(
        leading_whitespace(s.drop_first()) as int,
    ));
}

/// Trimming leaves a text alone that is empty or starts with anything else.
pub proof fn lemma_trim_start_fixed(s: Seq<char>)
    requires
        s.len() == 0 || !whitespace(s[0]),
    ensures
        trim_start(s) == s,
{
    assert(s.skip(0) =~= s);
}

/// Whitespace put before a text is trimmed away with the text's own.
pub proof fn lemma_trim_start_prepend(ws: Seq<char>, s: Seq<char>)
    requires
        all_whitespace(ws),
    ensures
        trim_start(ws + s) == trim_start(s),
    decreases ws.len(),
{
    if ws.len() == 0 {
        assert(ws + s =~= s);
    } else {
        assert((ws + s)[0] == ws[0]);
        lemma_trim_start_step(ws + s);
        assert((ws + s).drop_first() =~= ws.drop_first() + s);
        lemma_trim_start_prepend(ws.drop_first(), s);
    }
}

/// Nothing is left of a text that is all whitespace.
pub proof fn lemma_trim_start_blank(s: Seq<char>)
    requires
        all_whitespace(s),
    ensures
        trim_start(s) == Seq::<char>::empty(),
{
    lemma_trim_start_prepend(s, Seq::empty());
    assert(s + Seq::<char>::empty() =~= s);
    lemma_trim_start_fixed(Seq::empty());
}

/// What is put behind a text that is not all whitespace stays behind it
/// when the text is trimmed.
pub proof fn lemma_trim_start_append(s: Seq<char>, t: Seq<char>)
    requires
        !all_whitespace(s),
    ensures
        trim_start(s + t) == trim_start(s) + t,
    decreases s.len(),
{
    assert(s.len() > 0);
    assert((s + t)[0] == s[0]);
    if whitespace(s[0]) {
        lemma_trim_start_step(s);
        lemma_trim_start_step(s + t);
        assert((s + t).drop_first() =~= s.drop_first() + t);
        assert(!all_whitespace(s.drop_first())) by {
            if all_whitespace(s.drop_first()) {
                assert forall|i: int| 0 <= i < s.len() implies whitespace(#[trigger] s[i]) by {
                    if i > 0 {
                        assert(s[i] == s.drop_first()[i - 1]);
                    }
                }
            }
        }
        lemma_trim_start_append(s.drop_first(), t);
    } else {
        lemma_trim_start_fixed(s);
        lemma_trim_start_fixed(s + t);
    }
}

} // verus!
