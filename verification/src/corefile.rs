//! The configuration document as a sequence of lines, and the patch that
//! replaces the managed lines in it.

use crate::entry::{
    entry_line, host_names, is_anchor, is_managed, line_is_anchor, line_is_managed,
    managed_block, managed_entry,
};
use crate::error::ConfigFormatError;
use crate::search::{first_where, lemma_first_where, lemma_first_where_is};
use crate::text::{
    append_chars, chars_of, join_lines, lemma_first_newline_is, newline_free, split_lines,
};
use vstd::prelude::*;

verus! {

/// The lines of `lines` that do not bear the marker, in their order.
pub open spec fn user_lines(lines: Seq<Seq<char>>) -> Seq<Seq<char>> {
    lines.filter(|line: Seq<char>| !is_managed(line))
}

/// The lines of `lines` that bear the marker, in their order.
pub open spec fn managed_lines(lines: Seq<Seq<char>>) -> Seq<Seq<char>> {
    lines.filter(|line: Seq<char>| is_managed(line))
}

/// The number of lines before the first one that holds the anchor token: the
/// position of the anchor line, or the number of lines where there is none.
pub open spec fn anchor_position(lines: Seq<Seq<char>>) -> nat {
    first_where(lines, |line: Seq<char>| is_anchor(line))
}

/// Some line holds the anchor token.
pub open spec fn has_anchor(lines: Seq<Seq<char>>) -> bool {
    anchor_position(lines) < lines.len()
}

/// `lines` with `block` put in before position `at`.
pub open spec fn with_block(lines: Seq<Seq<char>>, at: int, block: Seq<Seq<char>>) -> Seq<
    Seq<char>,
> {
    lines.take(at) + block + lines.skip(at)
}

/// What patching makes of `lines`: the managed lines are dropped, and the
/// entries for `hosts` stand directly after the anchor line of what is left.
pub open spec fn patched_lines(lines: Seq<Seq<char>>, hosts: Seq<Seq<char>>, target: Seq<char>)
    -> Seq<Seq<char>> {
    let kept = user_lines(lines);
    with_block(kept, anchor_position(kept) as int + 1, managed_block(hosts, target))
}

/// The document `text` can be patched: a user-written line holds the anchor
/// token.
pub open spec fn text_has_anchor(text: Seq<char>) -> bool {
    has_anchor(user_lines(split_lines(text)))
}

/// What patching makes of the document `text`.
pub open spec fn patched_text(text: Seq<char>, hosts: Seq<Seq<char>>, target: Seq<char>) -> Seq<
    char,
> {
    join_lines(patched_lines(split_lines(text), hosts, target))
}

/// The lines held in `lines` as character sequences.
pub open spec fn lines_view(lines: Seq<Vec<char>>) -> Seq<Seq<char>> {
    Seq::new(lines.len(), |i: int| lines[i]@)
}

/// `anchor_position` is the least position of a line with the anchor token.
pub proof fn lemma_anchor_position(lines: Seq<Seq<char>>)
    ensures
        anchor_position(lines) <= lines.len(),
        forall|i: int| 0 <= i < anchor_position(lines) ==> !is_anchor(#[trigger] lines[i]),
        has_anchor(lines) ==> is_anchor(lines[anchor_position(lines) as int]),
{
    lemma_first_where(lines, |line: Seq<char>| is_anchor(line));
}

/// A position with no anchor line before it, which holds one or is the end,
/// is `anchor_position`.
pub proof fn lemma_anchor_position_is(lines: Seq<Seq<char>>, at: int)
    requires
        0 <= at <= lines.len(),
        forall|i: int| 0 <= i < at ==> !is_anchor(#[trigger] lines[i]),
        at < lines.len() ==> is_anchor(lines[at]),
    ensures
        anchor_position(lines) == at,
{
    lemma_first_where_is(lines, |line: Seq<char>| is_anchor(line), at);
}

/// A configuration document: its lines, without their line breaks.
#[derive(Debug, Clone, PartialEq, Eq)]
pub struct Corefile {
    pub lines: Vec<Vec<char>>,
}

impl View for Corefile {
    type V = Seq<Seq<char>>;

    open spec fn view(&self) -> Seq<Seq<char>> {
        lines_view(self.lines@)
    }
}

impl Corefile {
    /// Reads a document from its text.
    pub fn parse(text: &str) -> (doc: Corefile)
        ensures
            doc@ == split_lines(text@),
    {
        let chars = chars_of(text);
        let mut lines: Vec<Vec<char>> = Vec::new();
        let mut current: Vec<char> = Vec::new();
        let ghost mut start: int = 0;
        let mut i: usize = 0;
        proof {
            assert(chars@.skip(0) =~= chars@);
            assert(lines_view(lines@) + split_lines(chars@) =~= split_lines(chars@));
        }
        while i < chars.len()
            invariant
                0 <= start <= i <= chars.len(),
                current@ == chars@.subrange(start, i as int),
                newline_free(current@),
                split_lines(chars@) == lines_view(lines@) + split_lines(chars@.skip(start)),
            decreases chars.len() - i,
        {
            let c = chars[i];
            if c == '\n' {
                proof {
                    let rest = chars@.skip(start);
                    assert forall|k: int| 0 <= k < i - start implies rest[k] != '\n' by {
                        assert(rest[k] == current@[k]);
                    }
                    lemma_first_newline_is(rest, i - start);
                    assert(rest.take(i - start) =~= current@);
                    assert(rest.skip(i - start + 1) =~= chars@.skip(i + 1));
                    assert(lines_view(lines@.push(current)) =~= lines_view(lines@).push(
                        current@,
                    ));
                    assert(split_lines(chars@) =~= lines_view(lines@.push(current)) + split_lines(
                        chars@.skip(i + 1),
                    ));
                    start = i + 1;
                }
                lines.push(current);
                current = Vec::new();
            } else {
                current.push(c);
            }
            i += 1;
        }
        if current.len() > 0 {
            proof {
                let rest = chars@.skip(start);
                assert(rest =~= current@);
                lemma_first_newline_is(rest, rest.len() as int);
                assert(lines_view(lines@.push(current)) =~= lines_view(lines@).push(current@));
                assert(split_lines(chars@) =~= lines_view(lines@.push(current)));
            }
            lines.push(current);
        } else {
            assert(chars@.skip(start).len() == 0);
            assert(split_lines(chars@) =~= lines_view(lines@));
        }
        Corefile { lines }
    }

    /// Writes the document out, each line followed by one line break.
    pub fn render(&self) -> (text: String)
        ensures
            text@ == join_lines(self@),
    {
        let mut text = String::new();
        let mut i: usize = 0;
        while i < self.lines.len()
            invariant
                i <= self.lines.len(),
                text@ == join_lines(self@.take(i as int)),
            decreases self.lines.len() - i,
        {
            append_chars(&mut text, &self.lines[i]);
            text.push('\n');
            proof {
                assert(self@.take(i + 1).drop_last() =~= self@.take(i as int));
                assert(self@.take(i + 1).last() == self.lines@[i as int]@);
            }
            i += 1;
        }
        assert(self@.take(self.lines.len() as int) =~= self@);
        text
    }

    /// Drops every line that bears the marker and keeps the others in their
    /// order.
    pub fn remove_managed(&mut self)
        ensures
            final(self)@ == user_lines(old(self)@),
    {
        let ghost before = self@;
        let mut all: Vec<Vec<char>> = Vec::new();
        core::mem::swap(&mut self.lines, &mut all);
        let mut kept: Vec<Vec<char>> = Vec::new();
        let mut i: usize = 0;
        assert(user_lines(before.take(0)) =~= lines_view(kept@)) by {
            reveal(Seq::filter);
        }
        while i < all.len()
            invariant
                i <= all.len(),
                before == lines_view(all@),
                lines_view(kept@) == user_lines(before.take(i as int)),
            decreases all.len() - i,
        {
            let managed = line_is_managed(&all[i]);
            proof {
                reveal(Seq::filter);
                let next = before.take(i + 1);
                assert(next.drop_last() =~= before.take(i as int));
                assert(next.last() == all@[i as int]@);
                assert(user_lines(next) == if managed {
                    user_lines(next.drop_last())
                } else {
                    user_lines(next.drop_last()).push(next.last())
                });
            }
            if !managed {
                let line = all[i].clone();
                assert(line@ =~= all@[i as int]@);
                assert(lines_view(kept@.push(line)) =~= lines_view(kept@).push(line@));
                kept.push(line);
            }
            i += 1;
        }
        assert(before.take(all.len() as int) =~= before);
        self.lines = kept;
    }

    /// The position of the first line that holds the anchor token, if there is
    /// one.
    pub fn anchor(&self) -> (at: Option<usize>)
        ensures
            match at {
                Some(i) => has_anchor(self@) && i == anchor_position(self@),
                None => !has_anchor(self@),
            },
    {
        let mut i: usize = 0;
        while i < self.lines.len()
            invariant
                i <= self.lines.len(),
                forall|k: int| 0 <= k < i ==> !is_anchor(#[trigger] self@[k]),
            decreases self.lines.len() - i,
        {
            if line_is_anchor(&self.lines[i]) {
                proof {
                    lemma_anchor_position_is(self@, i as int);
                }
                return Some(i);
            }
            i += 1;
        }
        proof {
            lemma_anchor_position_is(self@, i as int);
        }
        None
    }

    /// Puts the lines of `block` in before position `at`, in their order and
    /// next to one another.
    pub fn insert_block(&mut self, at: usize, block: Vec<Vec<char>>)
        requires
            at <= old(self)@.len(),
        ensures
            final(self)@ == with_block(old(self)@, at as int, lines_view(block@)),
    {
        let ghost before = self@;
        let ghost added = lines_view(block@);
        let mut block = block;
        let mut tail = self.lines.split_off(at);
        self.lines.append(&mut block);
        self.lines.append(&mut tail);
        assert(self@ =~= with_block(before, at as int, added));
    }

    /// Replaces the managed lines by the entries for `hostnames`, put directly
    /// after the anchor line. Without an anchor line the managed lines are
    /// dropped all the same, and the error says that nothing was put in.
    pub fn patch(&mut self, hostnames: &Vec<String>, target: &str) -> (done: Result<
        (),
        ConfigFormatError,
    >)
        ensures
            match done {
                Ok(()) => has_anchor(user_lines(old(self)@)) && final(self)@ == patched_lines(
                    old(self)@,
                    host_names(hostnames@),
                    target@,
                ),
                Err(e) => e == ConfigFormatError::MissingAnchor && !has_anchor(
                    user_lines(old(self)@),
                ) && final(self)@ == user_lines(old(self)@),
            },
    {
        self.remove_managed();
        match self.anchor() {
            None => Err(ConfigFormatError::MissingAnchor),
            Some(at) => {
                assert(at < self.lines.len());
                let block = entry_block(hostnames, target);
                self.insert_block(at + 1, block);
                Ok(())
            },
        }
    }
}

/// Builds the entries for `hostnames`, one line each, in their order.
pub fn entry_block(hostnames: &Vec<String>, target: &str) -> (block: Vec<Vec<char>>)
    ensures
        lines_view(block@) == managed_block(host_names(hostnames@), target@),
{
    let mut block: Vec<Vec<char>> = Vec::new();
    let mut i: usize = 0;
    while i < hostnames.len()
        invariant
            i <= hostnames.len(),
            block@.len() == i,
            forall|k: int| 0 <= k < i ==> (#[trigger] block@[k])@ == managed_entry(
                hostnames@[k]@,
                target@,
            ),
        decreases hostnames.len() - i,
    {
        block.push(entry_line(hostnames[i].as_str(), target));
        i += 1;
    }
    assert(lines_view(block@) =~= managed_block(host_names(hostnames@), target@));
    block
}

/// Rewrites the document `document` so that its managed lines are exactly the
/// entries for `hostnames`: the old managed lines are dropped, the new ones
/// stand directly after the anchor line, every other line stays as and where
/// it was, and each line ends in one line break. A document in which no
/// user-written line holds the anchor token is refused.
pub fn patch(document: &str, hostnames: &Vec<String>, target: &str) -> (patched: Result<
    String,
    ConfigFormatError,
>)
    ensures
        match patched {
            Ok(text) => text_has_anchor(document@) && text@ == patched_text(
                document@,
                host_names(hostnames@),
                target@,
            ),
            Err(e) => e == ConfigFormatError::MissingAnchor && !text_has_anchor(document@),
        },
{
    let mut doc = Corefile::parse(document);
    match doc.patch(hostnames, target) {
        Ok(()) => Ok(doc.render()),
        Err(e) => Err(e),
    }
}

} // verus!
