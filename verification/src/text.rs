//! Line-oriented text.
//!
//! A text is a sequence of characters; its lines are the pieces between line
//! breaks. This module holds the mathematical model of splitting and joining,
//! the facts that relate the two, and the executable routines on characters.

use crate::search::{first_where, lemma_first_where, lemma_first_where_is};
use vstd::prelude::*;

verus! {

/// Position of the first line break in `text`, or the length of `text` where it
/// has none.
pub open spec fn first_newline(text: Seq<char>) -> nat {
    first_where(text, |c: char| c == '\n')
}

/// No character of `line` is a line break.
pub open spec fn newline_free(line: Seq<char>) -> bool {
    forall|i: int| 0 <= i < line.len() ==> line[i] != '\n'
}

/// The lines of `text`: the pieces between its line breaks. A final line break
/// ends the last line and opens no further, empty one, so the empty text has no
/// lines and `"a\n"` has the same single line as `"a"`.
pub open spec fn split_lines(text: Seq<char>) -> Seq<Seq<char>>
    decreases text.len(),
{
    let n = first_newline(text) as int;
    if text.len() == 0 {
        Seq::empty()
    } else if n >= text.len() {
        seq![text]
    } else {
        seq![text.take(n)] + split_lines(text.skip(n + 1))
    }
}

/// The text made of `lines`, each followed by one line break.
pub open spec fn join_lines(lines: Seq<Seq<char>>) -> Seq<char>
    decreases lines.len(),
{
    if lines.len() == 0 {
        Seq::empty()
    } else {
        join_lines(lines.drop_last()) + lines.last().push('\n')
    }
}

/// `needle` stands in `hay` at position `at`.
pub open spec fn occurs_at(hay: Seq<char>, needle: Seq<char>, at: int) -> bool {
    &&& 0 <= at
    &&& at + needle.len() <= hay.len()
    &&& hay.subrange(at, at + needle.len()) == needle
}

/// `needle` stands somewhere in `hay`.
pub open spec fn contains(hay: Seq<char>, needle: Seq<char>) -> bool {
    exists|at: int| occurs_at(hay, needle, at)
}

/// `first_newline` is the least position that holds a line break.
pub proof fn lemma_first_newline(text: Seq<char>)
    ensures
        first_newline(text) <= text.len(),
        forall|i: int| 0 <= i < first_newline(text) ==> text[i] != '\n',
        first_newline(text) < text.len() ==> text[first_newline(text) as int] == '\n',
{
    lemma_first_where(text, |c: char| c == '\n');
}

/// A position with no line break before it, which holds one or is the end of
/// the text, is `first_newline`.
pub proof fn lemma_first_newline_is(text: Seq<char>, at: int)
    requires
        0 <= at <= text.len(),
        forall|i: int| 0 <= i < at ==> text[i] != '\n',
        at < text.len() ==> text[at] == '\n',
    ensures
        first_newline(text) == at,
{
    lemma_first_where_is(text, |c: char| c == '\n', at);
}

/// Every line that `split_lines` gives is free of line breaks.
pub proof fn lemma_split_lines_newline_free(text: Seq<char>)
    ensures
        forall|i: int| 0 <= i < split_lines(text).len() ==> newline_free(#[trigger] split_lines(text)[i]),
    decreases text.len(),
{
    lemma_first_newline(text);
    let n = first_newline(text) as int;
    if text.len() == 0 {
    } else if n >= text.len() {
    } else {
        let rest = text.skip(n + 1);
        lemma_split_lines_newline_free(rest);
        assert forall|i: int| 0 <= i < split_lines(text).len() implies newline_free(
            #[trigger] split_lines(text)[i],
        ) by {
            if i > 0 {
                assert(split_lines(text)[i] == split_lines(rest)[i - 1]);
            }
        }
    }
}

/// Joining distributes over concatenation.
pub proof fn lemma_join_lines_concat(front: Seq<Seq<char>>, back: Seq<Seq<char>>)
    ensures
        join_lines(front + back) == join_lines(front) + join_lines(back),
    decreases back.len(),
{
    if back.len() == 0 {
        assert(front + back =~= front);
        assert(join_lines(front) + join_lines(back) =~= join_lines(front));
    } else {
        lemma_join_lines_concat(front, back.drop_last());
        assert((front + back).drop_last() =~= front + back.drop_last());
        assert((front + back).last() == back.last());
        assert(join_lines(front + back) =~= join_lines(front) + join_lines(back));
    }
}

/// The text of a single line is the line and a line break.
pub proof fn lemma_join_lines_single(line: Seq<char>)
    ensures
        join_lines(seq![line]) == line.push('\n'),
{
    let one = seq![line];
    assert(one.drop_last() =~= Seq::<Seq<char>>::empty());
    assert(join_lines(one.drop_last()) =~= Seq::<char>::empty());
    assert(join_lines(one) =~= line.push('\n'));
}

/// Splitting a text whose head is `head` and a line break gives the pieces of
/// that head, then the lines of what follows.
pub proof fn lemma_split_lines_concat(head: Seq<char>, tail: Seq<char>)
    ensures
        split_lines(head.push('\n') + tail) == split_lines(head.push('\n')) + split_lines(tail),
    decreases head.len(),
{
    let whole = head.push('\n') + tail;
    let alone = head.push('\n');
    lemma_first_newline(head);
    let n = first_newline(head) as int;
    assert forall|i: int| 0 <= i < n implies whole[i] != '\n' && alone[i] != '\n' by {
        assert(whole[i] == head[i]);
        assert(alone[i] == head[i]);
    }
    if n < head.len() {
        assert(whole[n] == head[n]);
        assert(alone[n] == head[n]);
    }
    lemma_first_newline_is(whole, n);
    lemma_first_newline_is(alone, n);
    if n == head.len() {
        assert(whole.take(n) =~= head);
        assert(alone.take(n) =~= head);
        assert(whole.skip(n + 1) =~= tail);
        assert(alone.skip(n + 1) =~= Seq::<char>::empty());
        assert(split_lines(alone.skip(n + 1)) =~= Seq::<Seq<char>>::empty());
        assert(split_lines(alone) =~= seq![head]);
        assert(split_lines(whole) =~= seq![head] + split_lines(tail));
    } else {
        let next = head.skip(n + 1);
        lemma_split_lines_concat(next, tail);
        assert(whole.take(n) =~= head.take(n));
        assert(alone.take(n) =~= head.take(n));
        assert(whole.skip(n + 1) =~= next.push('\n') + tail);
        assert(alone.skip(n + 1) =~= next.push('\n'));
        assert(split_lines(whole) =~= seq![head.take(n)] + (split_lines(next.push('\n'))
            + split_lines(tail)));
        assert(split_lines(alone) =~= seq![head.take(n)] + split_lines(next.push('\n')));
        assert(split_lines(whole) =~= split_lines(alone) + split_lines(tail));
    }
}

/// A line without line breaks, followed by one, splits into itself.
pub proof fn lemma_split_lines_single(line: Seq<char>)
    requires
        newline_free(line),
    ensures
        split_lines(line.push('\n')) == seq![line],
{
    let alone = line.push('\n');
    assert forall|i: int| 0 <= i < line.len() implies alone[i] != '\n' by {
        assert(alone[i] == line[i]);
    }
    lemma_first_newline_is(alone, line.len() as int);
    assert(alone.take(line.len() as int) =~= line);
    assert(alone.skip(line.len() as int + 1) =~= Seq::<char>::empty());
    assert(split_lines(alone.skip(line.len() as int + 1)) =~= Seq::<Seq<char>>::empty());
    assert(split_lines(alone) =~= seq![line]);
}

/// Splitting the text of two runs of lines gives what each run's text splits
/// into, one after the other.
pub proof fn lemma_resplit_concat(front: Seq<Seq<char>>, back: Seq<Seq<char>>)
    ensures
        split_lines(join_lines(front + back)) == split_lines(join_lines(front)) + split_lines(
            join_lines(back),
        ),
    decreases front.len(),
{
    if front.len() == 0 {
        assert(front + back =~= back);
        assert(split_lines(join_lines(front)) =~= Seq::<Seq<char>>::empty());
        assert(split_lines(join_lines(front)) + split_lines(join_lines(back)) =~= split_lines(
            join_lines(back),
        ));
    } else {
        let first = front.first();
        let rest = front.drop_first();
        assert(front =~= seq![first] + rest);
        assert(front + back =~= seq![first] + (rest + back));
        lemma_join_lines_single(first);
        lemma_join_lines_concat(seq![first], rest);
        lemma_join_lines_concat(seq![first], rest + back);
        lemma_split_lines_concat(first, join_lines(rest));
        lemma_split_lines_concat(first, join_lines(rest + back));
        lemma_resplit_concat(rest, back);
        assert(split_lines(join_lines(front + back)) =~= split_lines(first.push('\n')) + (
        split_lines(join_lines(rest)) + split_lines(join_lines(back))));
    }
}

/// Lines without line breaks come back unchanged when their text is split.
pub proof fn lemma_split_join(lines: Seq<Seq<char>>)
    requires
        forall|i: int| 0 <= i < lines.len() ==> newline_free(#[trigger] lines[i]),
    ensures
        split_lines(join_lines(lines)) == lines,
    decreases lines.len(),
{
    if lines.len() == 0 {
        assert(split_lines(join_lines(lines)) =~= lines);
    } else {
        let first = lines.first();
        let rest = lines.drop_first();
        assert(lines =~= seq![first] + rest);
        assert forall|i: int| 0 <= i < rest.len() implies newline_free(#[trigger] rest[i]) by {
            assert(rest[i] == lines[i + 1]);
        }
        lemma_split_join(rest);
        lemma_resplit_concat(seq![first], rest);
        lemma_join_lines_single(first);
        lemma_split_lines_single(first);
    }
}

/// `String::push` of the standard library appends the given character to the
/// end of the string and leaves the rest as it was.
pub assume_specification[ String::push ](s: &mut String, ch: char)
    ensures
        final(s)@ == old(s)@.push(ch),
;

/// The characters of `s`, in order.
pub fn chars_of(s: &str) -> (out: Vec<char>)
    ensures
        out@ == s@,
{
    let mut out: Vec<char> = Vec::new();
    for c in it: s.chars()
        invariant
            out@ == it.seq().take(it.index() as int),
            it.seq() == s@,
    {
        out.push(c);
    }
    out
}

/// Appends `chars` to `out`.
pub fn append_chars(out: &mut String, chars: &Vec<char>)
    ensures
        final(out)@ == old(out)@ + chars@,
{
    let ghost before = out@;
    let mut i: usize = 0;
    while i < chars.len()
        invariant
            i <= chars.len(),
            out@ == before + chars@.take(i as int),
        decreases chars.len() - i,
    {
        out.push(chars[i]);
        i += 1;
    }
}

/// Whether `needle` stands in `hay` at position `at`.
pub fn matches_at(hay: &Vec<char>, needle: &Vec<char>, at: usize) -> (found: bool)
    ensures
        found == occurs_at(hay@, needle@, at as int),
{
    if at > hay.len() || needle.len() > hay.len() - at {
        return false;
    }
    let mut j: usize = 0;
    while j < needle.len()
        invariant
            j <= needle.len(),
            at + needle.len() <= hay.len(),
            forall|k: int| 0 <= k < j ==> hay@[at + k] == needle@[k],
        decreases needle.len() - j,
    {
        if hay[at + j] != needle[j] {
            assert(hay@.subrange(at as int, at + needle@.len())[j as int] != needle@[j as int]);
            return false;
        }
        j += 1;
    }
    assert(hay@.subrange(at as int, at + needle@.len()) =~= needle@);
    true
}

/// Whether `needle` stands somewhere in `hay`.
pub fn contains_chars(hay: &Vec<char>, needle: &Vec<char>) -> (found: bool)
    ensures
        found == contains(hay@, needle@),
{
    if needle.len() > hay.len() {
        return false;
    }
    if needle.len() == 0 {
        assert(hay@.subrange(0, 0) =~= needle@);
        assert(occurs_at(hay@, needle@, 0));
        return true;
    }
    let last: usize = hay.len() - needle.len();
    let mut at: usize = 0;
    while at <= last
        invariant
            at <= last + 1,
            last < hay.len(),
            last + needle.len() == hay.len(),
            forall|k: int| 0 <= k < at ==> !occurs_at(hay@, needle@, k),
        decreases last + 1 - at,
    {
        if matches_at(hay, needle, at) {
            return true;
        }
        at += 1;
    }
    false
}

} // verus!
