//! Source texts: the operators, the comments between them, and the
//! cell-clearing loop that is folded before the structural pass.

use vstd::prelude::*;

verus! {

/// True for the eight characters that carry meaning; every other character
/// of a source text is a comment.
pub open spec fn is_operator(c: char) -> bool {
    c == '>' || c == '<' || c == '+' || c == '-' || c == '.' || c == ',' || c == '[' || c == ']'
}

/// The source text with every comment character removed, order kept.
pub open spec fn strip(text: Seq<char>) -> Seq<char> {
    text.filter(|c: char| is_operator(c))
}

/// The character that stands for one whole cell-clearing loop once the
/// idiom has been folded.
pub const ZERO_TOKEN: char = '0';

/// True when the three characters of `text` that start at `at` spell the
/// cell-clearing loop.
pub open spec fn clear_idiom_at(text: Seq<char>, at: int) -> bool {
    &&& 0 <= at
    &&& at + 3 <= text.len()
    &&& text[at] == '['
    &&& text[at + 1] == '-'
    &&& text[at + 2] == ']'
}

/// `text` with every cell-clearing loop replaced by [`ZERO_TOKEN`], reading
/// from the left; occurrences cannot overlap.
pub open spec fn fold_clear_idiom(text: Seq<char>) -> Seq<char>
    decreases text.len(),
{
    if text.len() == 0 {
        Seq::empty()
    } else if clear_idiom_at(text, 0) {
        seq![ZERO_TOKEN] + fold_clear_idiom(text.skip(3))
    } else {
        seq![text[0]] + fold_clear_idiom(text.skip(1))
    }
}

/// Specifies `String::push`: the character is appended to the end of the
/// string and nothing else changes.
pub assume_specification[ String::push ](s: &mut String, ch: char)
    ensures
        final(s)@ == old(s)@.push(ch),
;

/// Decides whether `c` is one of the eight operators.
pub fn is_allowed_symbol(c: char) -> (allowed: bool)
    ensures
        allowed == is_operator(c),
{
    c == '>' || c == '<' || c == '+' || c == '-' || c == '.' || c == ',' || c == '[' || c == ']'
}

/// The characters of `text`, in order, as an indexable vector.
pub fn characters(text: &str) -> (chars: Vec<char>)
    ensures
        chars@ == text@,
{
    let mut chars: Vec<char> = Vec::new();
    for c in it: text.chars()
        invariant
            it.seq() == text@,
            chars@ == text@.take(it.index()),
    {
        chars.push(c);
        assert(text@.take(it.index() + 1) == text@.take(it.index()).push(text@[it.index()]));
    }
    assert(text@.take(text@.len() as int) == text@);
    chars
}

/// Stripping a text that ends in `c` strips the text before it and keeps `c`
/// exactly when it is an operator.
pub proof fn lemma_strip_push(text: Seq<char>, c: char)
    ensures
        strip(text.push(c)) == if is_operator(c) {
            strip(text).push(c)
        } else {
            strip(text)
        },
{
    reveal(Seq::filter);
    assert(text.push(c).drop_last() == text);
}

/// A text of operators alone is left as it is.
pub proof fn lemma_strip_operators(text: Seq<char>)
    requires
        forall|i: int| 0 <= i < text.len() ==> is_operator(#[trigger] text[i]),
    ensures
        strip(text) == text,
    decreases text.len(),
{
    if text.len() > 0 {
        lemma_strip_operators(text.drop_last());
        lemma_strip_push(text.drop_last(), text.last());
        assert(text.drop_last().push(text.last()) == text);
    }
}

/// A text without any operator is dropped whole.
pub proof fn lemma_strip_comment(text: Seq<char>)
    requires
        forall|i: int| 0 <= i < text.len() ==> !is_operator(#[trigger] text[i]),
    ensures
        strip(text) == Seq::<char>::empty(),
    decreases text.len(),
{
    if text.len() > 0 {
        lemma_strip_comment(text.drop_last());
        lemma_strip_push(text.drop_last(), text.last());
        assert(text.drop_last().push(text.last()) == text);
    }
}

/// What is left after stripping holds operators alone and is no longer
/// than the text.
pub proof fn lemma_strip_keeps_operators(text: Seq<char>)
    ensures
        strip(text).len() <= text.len(),
        forall|i: int| 0 <= i < strip(text).len() ==> is_operator(#[trigger] strip(text)[i]),
    decreases text.len(),
{
    if text.len() > 0 {
        lemma_strip_keeps_operators(text.drop_last());
        lemma_strip_push(text.drop_last(), text.last());
        assert(text.drop_last().push(text.last()) == text);
    } else {
        reveal(Seq::filter);
    }
}

/// Stripping twice is stripping once.
pub proof fn lemma_strip_idempotent(text: Seq<char>)
    ensures
        strip(strip(text)) == strip(text),
{
    lemma_strip_keeps_operators(text);
    lemma_strip_operators(strip(text));
}

/// Comment characters anywhere in a text leave no trace in what stripping
/// keeps.
pub proof fn lemma_strip_skips_comment(before: Seq<char>, comment: Seq<char>, after: Seq<char>)
    requires
        forall|i: int| 0 <= i < comment.len() ==> !is_operator(#[trigger] comment[i]),
    ensures
        strip(before + comment + after) == strip(before + after),
{
    let keep = |c: char| is_operator(c);
    Seq::filter_distributes_over_add(before + comment, after, keep);
    Seq::filter_distributes_over_add(before, comment, keep);
    Seq::filter_distributes_over_add(before, after, keep);
    lemma_strip_comment(comment);
    assert(strip(before) + Seq::<char>::empty() == strip(before));
}

/// A text in which the cell-clearing loop does not occur is left as it is
/// by the folding.
pub proof fn lemma_fold_without_idiom(text: Seq<char>)
    requires
        forall|at: int| !clear_idiom_at(text, at),
    ensures
        fold_clear_idiom(text) == text,
    decreases text.len(),
{
    if text.len() > 0 {
        let rest = text.skip(1);
        assert forall|at: int| !clear_idiom_at(rest, at) by {
            assert(!clear_idiom_at(text, at + 1));
        }
        lemma_fold_without_idiom(rest);
        assert(!clear_idiom_at(text, 0));
        assert(seq![text[0]] + rest == text);
    }
}

/// Folding never lengthens a text.
pub proof fn lemma_fold_length(text: Seq<char>)
    ensures
        fold_clear_idiom(text).len() <= text.len(),
    decreases text.len(),
{
    if text.len() == 0 {
    } else if clear_idiom_at(text, 0) {
        lemma_fold_length(text.skip(3));
    } else {
        lemma_fold_length(text.skip(1));
    }
}

/// Removes every character that is not an operator, keeping the rest in
/// order.
pub fn strip_program(code: &mut String)
    ensures
        final(code)@ == strip(old(code)@),
{
    let mut kept = String::new();
    let ghost text = code@;
    for c in it: code.as_str().chars()
        invariant
            it.seq() == text,
            kept@ == strip(text.take(it.index())),
    {
        proof {
            lemma_strip_push(text.take(it.index()), c);
            assert(text.take(it.index() + 1) == text.take(it.index()).push(c));
        }
        if is_allowed_symbol(c) {
            kept.push(c);
        }
    }
    assert(text.take(text.len() as int) == text);
    *code = kept;
}

/// Replaces every cell-clearing loop by [`ZERO_TOKEN`].
pub fn pre_process_program(code: &String) -> (folded: String)
    ensures
        folded@ == fold_clear_idiom(code@),
{
    let chars = characters(code.as_str());
    let mut folded = String::new();
    let mut at: usize = 0;
    proof {
        assert(chars@.skip(0) == chars@);
        assert(folded@ + fold_clear_idiom(chars@) == fold_clear_idiom(chars@));
    }
    while at < chars.len()
        invariant
            at <= chars.len(),
            chars@ == code@,
            folded@ + fold_clear_idiom(chars@.skip(at as int)) == fold_clear_idiom(chars@),
        decreases chars.len() - at,
    {
        let ghost rest = chars@.skip(at as int);
        if chars.len() - at >= 3 && chars[at] == '[' && chars[at + 1] == '-' && chars[at + 2]
            == ']' {
            proof {
                assert(clear_idiom_at(rest, 0));
                assert(rest.skip(3) == chars@.skip(at + 3));
                assert(folded@.push(ZERO_TOKEN) + fold_clear_idiom(rest.skip(3)) == folded@ + (
                seq![ZERO_TOKEN] + fold_clear_idiom(rest.skip(3))));
            }
            folded.push(ZERO_TOKEN);
            at += 3;
        } else {
            proof {
                assert(!clear_idiom_at(rest, 0));
                assert(rest.skip(1) == chars@.skip(at + 1));
                assert(folded@.push(rest[0]) + fold_clear_idiom(rest.skip(1)) == folded@ + (
                seq![rest[0]] + fold_clear_idiom(rest.skip(1))));
            }
            folded.push(chars[at]);
            at += 1;
        }
    }
    proof {
        assert(chars@.skip(at as int).len() == 0);
        assert(folded@ + Seq::<char>::empty() == folded@);
    }
    folded
}

} // verus!
