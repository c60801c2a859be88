//! What patching guarantees, proved of the model that the patch functions are
//! specified by.

use crate::corefile::{
    anchor_position, has_anchor, lemma_anchor_position, lemma_anchor_position_is, managed_lines,
    patched_lines, patched_text, text_has_anchor, user_lines, with_block,
};
use crate::entry::{
    is_anchor, is_managed, lemma_entry_is_managed, lemma_entry_newline_free, managed_block,
    managed_entry,
};
use crate::text::{
    join_lines, lemma_join_lines_concat, lemma_join_lines_single, lemma_resplit_concat,
    lemma_split_join, lemma_split_lines_newline_free, lemma_split_lines_single, newline_free,
    split_lines,
};
use vstd::prelude::*;

verus! {

/// The pieces into which the entry for `host` falls when a text that holds it
/// is split into lines again.
pub open spec fn entry_pieces(host: Seq<char>, target: Seq<char>) -> Seq<Seq<char>> {
    split_lines(managed_entry(host, target).push('\n'))
}

/// The entry for `host` is recognised when a text that holds it is read
/// again: each of its pieces bears the marker.
pub open spec fn entry_stable(host: Seq<char>, target: Seq<char>) -> bool {
    forall|i: int|
        0 <= i < entry_pieces(host, target).len() ==> is_managed(
            #[trigger] entry_pieces(host, target)[i],
        )
}

/// Every entry for `hosts` is recognised when read again.
pub open spec fn entries_stable(hosts: Seq<Seq<char>>, target: Seq<char>) -> bool {
    forall|i: int| 0 <= i < hosts.len() ==> entry_stable(#[trigger] hosts[i], target)
}

/// None of `hosts` holds a line break.
pub open spec fn hosts_newline_free(hosts: Seq<Seq<char>>) -> bool {
    forall|i: int| 0 <= i < hosts.len() ==> newline_free(#[trigger] hosts[i])
}

proof fn lemma_filter_keeps_all<T>(s: Seq<T>, pred: spec_fn(T) -> bool)
    requires
        forall|i: int| 0 <= i < s.len() ==> pred(#[trigger] s[i]),
    ensures
        s.filter(pred) == s,
    decreases s.len(),
{
    reveal(Seq::filter);
    if s.len() > 0 {
        let front = s.drop_last();
        assert forall|i: int| 0 <= i < front.len() implies pred(#[trigger] front[i]) by {
            assert(front[i] == s[i]);
        }
        lemma_filter_keeps_all(front, pred);
        assert(pred(s.last()));
        assert(front.push(s.last()) =~= s);
    }
}

proof fn lemma_filter_keeps_none<T>(s: Seq<T>, pred: spec_fn(T) -> bool)
    requires
        forall|i: int| 0 <= i < s.len() ==> !pred(#[trigger] s[i]),
    ensures
        s.filter(pred) == Seq::<T>::empty(),
    decreases s.len(),
{
    reveal(Seq::filter);
    if s.len() > 0 {
        let front = s.drop_last();
        assert forall|i: int| 0 <= i < front.len() implies !pred(#[trigger] front[i]) by {
            assert(front[i] == s[i]);
        }
        lemma_filter_keeps_none(front, pred);
        assert(!pred(s.last()));
    } else {
        assert(s =~= Seq::<T>::empty());
    }
}

/// The lines that remain after the managed ones are dropped do not bear the
/// marker, and have no line break where the lines they come from had none.
pub proof fn lemma_user_lines(lines: Seq<Seq<char>>)
    ensures
        forall|i: int|
            0 <= i < user_lines(lines).len() ==> !is_managed(#[trigger] user_lines(lines)[i]),
        (forall|i: int| 0 <= i < lines.len() ==> newline_free(#[trigger] lines[i])) ==> (forall|
            i: int,
        | 0 <= i < user_lines(lines).len() ==> newline_free(#[trigger] user_lines(lines)[i])),
    decreases lines.len(),
{
    reveal(Seq::filter);
    if lines.len() > 0 {
        let front = lines.drop_last();
        lemma_user_lines(front);
        assert forall|i: int| 0 <= i < user_lines(lines).len() implies !is_managed(
            #[trigger] user_lines(lines)[i],
        ) by {
            if i < user_lines(front).len() {
                assert(user_lines(lines)[i] == user_lines(front)[i]);
            }
        }
        if forall|i: int| 0 <= i < lines.len() ==> newline_free(#[trigger] lines[i]) {
            assert forall|i: int| 0 <= i < front.len() implies newline_free(
                #[trigger] front[i],
            ) by {
                assert(front[i] == lines[i]);
            }
            assert forall|i: int| 0 <= i < user_lines(lines).len() implies newline_free(
                #[trigger] user_lines(lines)[i],
            ) by {
                if i < user_lines(front).len() {
                    assert(user_lines(lines)[i] == user_lines(front)[i]);
                } else {
                    assert(user_lines(lines)[i] == lines.last());
                }
            }
        }
    }
}

/// An entry whose host and target hold no line break is recognised when read
/// again: it is one line, and it ends in the marker.
pub proof fn lemma_newline_free_entry_is_stable(host: Seq<char>, target: Seq<char>)
    requires
        newline_free(host),
        newline_free(target),
    ensures
        entry_stable(host, target),
        entry_pieces(host, target) == seq![managed_entry(host, target)],
{
    lemma_entry_newline_free(host, target);
    lemma_split_lines_single(managed_entry(host, target));
    lemma_entry_is_managed(host, target);
}

/// Hosts and a target without line breaks give entries that are all
/// recognised when read again.
pub proof fn lemma_newline_free_entries_are_stable(hosts: Seq<Seq<char>>, target: Seq<char>)
    requires
        hosts_newline_free(hosts),
        newline_free(target),
    ensures
        entries_stable(hosts, target),
{
    assert forall|i: int| 0 <= i < hosts.len() implies entry_stable(#[trigger] hosts[i], target) by {
        lemma_newline_free_entry_is_stable(hosts[i], target);
    }
}

/// Where the patch puts its block: the lines up to and with the anchor line
/// stay, the entries follow it directly, one per host, in the order of the
/// hosts and with nothing between them, and the remaining user-written lines
/// come after the last entry. The anchor line is still the first of its kind.
pub proof fn lemma_block_follows_anchor(
    lines: Seq<Seq<char>>,
    hosts: Seq<Seq<char>>,
    target: Seq<char>,
)
    requires
        has_anchor(user_lines(lines)),
    ensures
        ({
            let kept = user_lines(lines);
            let at = anchor_position(kept) as int;
            let out = patched_lines(lines, hosts, target);
            &&& out.len() == kept.len() + hosts.len()
            &&& anchor_position(out) == at
            &&& is_anchor(out[at])
            &&& forall|i: int| 0 <= i <= at ==> out[i] == kept[i]
            &&& forall|i: int|
                0 <= i < hosts.len() ==> out[at + 1 + i] == managed_entry(hosts[i], target)
            &&& forall|i: int| at < i < kept.len() ==> out[i + hosts.len()] == kept[i]
        }),
{
    let kept = user_lines(lines);
    let at = anchor_position(kept) as int;
    let out = patched_lines(lines, hosts, target);
    lemma_anchor_position(kept);
    assert forall|i: int| 0 <= i < at implies !is_anchor(#[trigger] out[i]) by {
        assert(out[i] == kept[i]);
    }
    assert(out[at] == kept[at]);
    lemma_anchor_position_is(out, at);
}

/// The text that the patch writes is the text of the lines up to the anchor
/// line, then the text of the entries, then the text of the other lines.
pub proof fn lemma_patched_text_layout(text: Seq<char>, hosts: Seq<Seq<char>>, target: Seq<char>)
    requires
        text_has_anchor(text),
    ensures
        ({
            let kept = user_lines(split_lines(text));
            let at = anchor_position(kept) as int;
            patched_text(text, hosts, target) == join_lines(kept.take(at + 1)) + join_lines(
                managed_block(hosts, target),
            ) + join_lines(kept.skip(at + 1))
        }),
{
    let kept = user_lines(split_lines(text));
    let at = anchor_position(kept) as int;
    let block = managed_block(hosts, target);
    lemma_join_lines_concat(kept.take(at + 1) + block, kept.skip(at + 1));
    lemma_join_lines_concat(kept.take(at + 1), block);
}

/// After the patch the managed lines are exactly the entries for the desired
/// hosts, in their order, whatever managed lines stood there before; and the
/// user-written lines are the same, in the same order.
pub proof fn lemma_managed_lines_replaced(
    lines: Seq<Seq<char>>,
    hosts: Seq<Seq<char>>,
    target: Seq<char>,
)
    requires
        has_anchor(user_lines(lines)),
    ensures
        managed_lines(patched_lines(lines, hosts, target)) == managed_block(hosts, target),
        user_lines(patched_lines(lines, hosts, target)) == user_lines(lines),
{
    let kept = user_lines(lines);
    let at = anchor_position(kept) as int + 1;
    let block = managed_block(hosts, target);
    let head = kept.take(at);
    let tail = kept.skip(at);
    let user = |line: Seq<char>| !is_managed(line);
    let managed = |line: Seq<char>| is_managed(line);
    lemma_user_lines(lines);
    assert forall|i: int| 0 <= i < block.len() implies is_managed(#[trigger] block[i]) by {
        lemma_entry_is_managed(hosts[i], target);
    }
    assert forall|i: int| 0 <= i < head.len() implies !is_managed(#[trigger] head[i]) by {
        assert(head[i] == kept[i]);
    }
    assert forall|i: int| 0 <= i < tail.len() implies !is_managed(#[trigger] tail[i]) by {
        assert(tail[i] == kept[i + at]);
    }
    Seq::filter_distributes_over_add(head + block, tail, user);
    Seq::filter_distributes_over_add(head, block, user);
    Seq::filter_distributes_over_add(head + block, tail, managed);
    Seq::filter_distributes_over_add(head, block, managed);
    lemma_filter_keeps_all(head, user);
    lemma_filter_keeps_none(block, user);
    lemma_filter_keeps_all(tail, user);
    lemma_filter_keeps_none(head, managed);
    lemma_filter_keeps_all(block, managed);
    lemma_filter_keeps_none(tail, managed);
    assert(head + Seq::<Seq<char>>::empty() + tail =~= kept);
    assert(Seq::<Seq<char>>::empty() + block + Seq::<Seq<char>>::empty() =~= block);
}

/// With no desired host the patch removes every managed line and adds none:
/// what is left is the user-written lines.
pub proof fn lemma_no_hosts_leaves_user_lines(
    lines: Seq<Seq<char>>,
    hosts: Seq<Seq<char>>,
    target: Seq<char>,
)
    requires
        has_anchor(user_lines(lines)),
        hosts.len() == 0,
    ensures
        patched_lines(lines, hosts, target) == user_lines(lines),
        managed_lines(patched_lines(lines, hosts, target)) == Seq::<Seq<char>>::empty(),
{
    let kept = user_lines(lines);
    assert(patched_lines(lines, hosts, target) =~= kept);
    lemma_managed_lines_replaced(lines, hosts, target);
    assert(managed_block(hosts, target) =~= Seq::<Seq<char>>::empty());
}

/// A document can be patched exactly when one of its lines holds the anchor
/// token and does not bear the marker.
pub proof fn lemma_text_has_anchor(text: Seq<char>)
    ensures
        text_has_anchor(text) <==> exists|i: int|
            0 <= i < split_lines(text).len() && is_anchor(#[trigger] split_lines(text)[i])
                && !is_managed(split_lines(text)[i]),
{
    lemma_user_anchor(split_lines(text));
}

proof fn lemma_user_anchor(lines: Seq<Seq<char>>)
    ensures
        has_anchor(user_lines(lines)) <==> exists|i: int|
            0 <= i < lines.len() && is_anchor(#[trigger] lines[i]) && !is_managed(lines[i]),
    decreases lines.len(),
{
    reveal(Seq::filter);
    let kept = user_lines(lines);
    lemma_anchor_position(kept);
    if lines.len() > 0 {
        let front = lines.drop_last();
        let last = lines.last();
        lemma_user_anchor(front);
        lemma_anchor_position(user_lines(front));
        if has_anchor(user_lines(front)) {
            let at = anchor_position(user_lines(front)) as int;
            let i = choose|i: int|
                0 <= i < front.len() && is_anchor(#[trigger] front[i]) && !is_managed(front[i]);
            assert(lines[i] == front[i]);
            assert forall|k: int| 0 <= k < at implies !is_anchor(#[trigger] kept[k]) by {
                assert(kept[k] == user_lines(front)[k]);
            }
            assert(kept[at] == user_lines(front)[at]);
            lemma_anchor_position_is(kept, at);
        } else if is_anchor(last) && !is_managed(last) {
            let at = user_lines(front).len() as int;
            assert forall|k: int| 0 <= k < at implies !is_anchor(#[trigger] kept[k]) by {
                assert(kept[k] == user_lines(front)[k]);
            }
            assert(kept[at] == last);
            lemma_anchor_position_is(kept, at);
            assert(lines[lines.len() - 1] == last);
        } else {
            assert forall|k: int| 0 <= k < kept.len() implies !is_anchor(#[trigger] kept[k]) by {
                if !is_managed(last) && k == kept.len() - 1 {
                    assert(kept[k] == last);
                } else {
                    assert(kept[k] == user_lines(front)[k]);
                }
            }
            lemma_anchor_position_is(kept, kept.len() as int);
            assert forall|i: int| 0 <= i < lines.len() implies !(is_anchor(#[trigger] lines[i])
                && !is_managed(lines[i])) by {
                if i < front.len() {
                    assert(front[i] == lines[i]);
                }
            }
        }
    }
}

/// What a second reading of the entries takes for user-written lines: the
/// pieces of the entries that do not bear the marker.
pub open spec fn stray_lines(hosts: Seq<Seq<char>>, target: Seq<char>) -> Seq<Seq<char>> {
    user_lines(split_lines(join_lines(managed_block(hosts, target))))
}

proof fn lemma_entry_stable_iff_no_stray(host: Seq<char>, target: Seq<char>)
    ensures
        entry_stable(host, target) <==> user_lines(entry_pieces(host, target)).len() == 0,
{
    let pieces = entry_pieces(host, target);
    let user = |line: Seq<char>| !is_managed(line);
    if entry_stable(host, target) {
        assert forall|i: int| 0 <= i < pieces.len() implies !user(#[trigger] pieces[i]) by {}
        lemma_filter_keeps_none(pieces, user);
    } else {
        let i = choose|i: int| 0 <= i < pieces.len() && !is_managed(#[trigger] pieces[i]);
        pieces.lemma_filter_contains(user, i);
    }
}

proof fn lemma_stray_lines(hosts: Seq<Seq<char>>, target: Seq<char>)
    ensures
        entries_stable(hosts, target) <==> stray_lines(hosts, target).len() == 0,
    decreases hosts.len(),
{
    let block = managed_block(hosts, target);
    let user = |line: Seq<char>| !is_managed(line);
    if hosts.len() == 0 {
        assert(block =~= Seq::<Seq<char>>::empty());
        assert(split_lines(join_lines(block)) =~= Seq::<Seq<char>>::empty());
        lemma_filter_keeps_none(split_lines(join_lines(block)), user);
    } else {
        let first = managed_entry(hosts[0], target);
        let rest = hosts.drop_first();
        lemma_stray_lines(rest, target);
        lemma_entry_stable_iff_no_stray(hosts[0], target);
        assert(block =~= seq![first] + managed_block(rest, target));
        lemma_resplit_concat(seq![first], managed_block(rest, target));
        lemma_join_lines_single(first);
        Seq::filter_distributes_over_add(
            entry_pieces(hosts[0], target),
            split_lines(join_lines(managed_block(rest, target))),
            user,
        );
        assert(stray_lines(hosts, target) == user_lines(entry_pieces(hosts[0], target))
            + stray_lines(rest, target));
        if entries_stable(hosts, target) {
            assert forall|i: int| 0 <= i < rest.len() implies entry_stable(
                #[trigger] rest[i],
                target,
            ) by {
                assert(rest[i] == hosts[i + 1]);
            }
        }
        if entry_stable(hosts[0], target) && entries_stable(rest, target) {
            assert forall|i: int| 0 <= i < hosts.len() implies entry_stable(
                #[trigger] hosts[i],
                target,
            ) by {
                if i > 0 {
                    assert(hosts[i] == rest[i - 1]);
                }
            }
        }
    }
}

proof fn lemma_resplit_around(head: Seq<Seq<char>>, block: Seq<Seq<char>>, tail: Seq<Seq<char>>)
    requires
        forall|i: int| 0 <= i < head.len() ==> newline_free(#[trigger] head[i]),
        forall|i: int| 0 <= i < tail.len() ==> newline_free(#[trigger] tail[i]),
    ensures
        split_lines(join_lines(head + block + tail)) == head + split_lines(join_lines(block))
            + tail,
{
    lemma_resplit_concat(head + block, tail);
    lemma_resplit_concat(head, block);
    lemma_split_join(head);
    lemma_split_join(tail);
}

proof fn lemma_user_lines_around(head: Seq<Seq<char>>, mid: Seq<Seq<char>>, tail: Seq<Seq<char>>)
    requires
        forall|i: int| 0 <= i < head.len() ==> !is_managed(#[trigger] head[i]),
        forall|i: int| 0 <= i < tail.len() ==> !is_managed(#[trigger] tail[i]),
    ensures
        user_lines(head + mid + tail) == head + user_lines(mid) + tail,
{
    let user = |line: Seq<char>| !is_managed(line);
    Seq::filter_distributes_over_add(head + mid, tail, user);
    Seq::filter_distributes_over_add(head, mid, user);
    lemma_filter_keeps_all(head, user);
    lemma_filter_keeps_all(tail, user);
}

proof fn lemma_join_lines_len(lines: Seq<Seq<char>>)
    ensures
        join_lines(lines).len() >= lines.len(),
    decreases lines.len(),
{
    if lines.len() > 0 {
        lemma_join_lines_len(lines.drop_last());
    }
}

/// Reading the patched text again and dropping its managed lines gives the
/// user-written lines of the document that was patched, with the stray pieces
/// of the entries, if there are any, after the anchor line. The anchor line
/// is where it was, so a patched text can always be patched again.
pub proof fn lemma_patched_text_user_lines(
    text: Seq<char>,
    hosts: Seq<Seq<char>>,
    target: Seq<char>,
)
    requires
        text_has_anchor(text),
    ensures
        ({
            let kept = user_lines(split_lines(text));
            let again = user_lines(split_lines(patched_text(text, hosts, target)));
            &&& again == with_block(
                kept,
                anchor_position(kept) as int + 1,
                stray_lines(hosts, target),
            )
            &&& anchor_position(again) == anchor_position(kept)
            &&& has_anchor(again)
        }),
{
    let lines = split_lines(text);
    let kept = user_lines(lines);
    let at = anchor_position(kept) as int + 1;
    let block = managed_block(hosts, target);
    let head = kept.take(at);
    let tail = kept.skip(at);
    let again = head + stray_lines(hosts, target) + tail;
    assert forall|i: int| 0 <= i < kept.len() implies newline_free(#[trigger] kept[i])
        && !is_managed(kept[i]) by {
        lemma_split_lines_newline_free(text);
        lemma_user_lines(lines);
    }
    assert forall|i: int| 0 <= i < head.len() implies newline_free(#[trigger] head[i])
        && !is_managed(head[i]) by {
        assert(head[i] == kept[i]);
    }
    assert forall|i: int| 0 <= i < tail.len() implies newline_free(#[trigger] tail[i])
        && !is_managed(tail[i]) by {
        assert(tail[i] == kept[i + at]);
    }
    lemma_resplit_around(head, block, tail);
    lemma_user_lines_around(head, split_lines(join_lines(block)), tail);
    lemma_anchor_position(kept);
    assert forall|i: int| 0 <= i < at - 1 implies !is_anchor(#[trigger] again[i]) by {
        assert(again[i] == kept[i]);
    }
    assert(again[at - 1] == kept[at - 1]);
    lemma_anchor_position_is(again, at - 1);
}

/// Patching is idempotent exactly where every entry is recognised when read
/// again, as it is for hosts and a target without line breaks: there, a text
/// that was patched is left as it is by the same patch. Elsewhere the second
/// patch keeps the stray pieces of the entries as user-written lines, and its
/// text is longer than that of the first.
pub proof fn lemma_patch_idempotent(text: Seq<char>, hosts: Seq<Seq<char>>, target: Seq<char>)
    requires
        text_has_anchor(text),
    ensures
        text_has_anchor(patched_text(text, hosts, target)),
        entries_stable(hosts, target) <==> patched_text(
            patched_text(text, hosts, target),
            hosts,
            target,
        ) == patched_text(text, hosts, target),
{
    let kept = user_lines(split_lines(text));
    let at = anchor_position(kept) as int + 1;
    let block = managed_block(hosts, target);
    let stray = stray_lines(hosts, target);
    let head = kept.take(at);
    let tail = kept.skip(at);
    let once = patched_text(text, hosts, target);
    let twice = patched_text(once, hosts, target);
    lemma_patched_text_user_lines(text, hosts, target);
    lemma_stray_lines(hosts, target);
    lemma_anchor_position(kept);
    let again = with_block(kept, at, stray);
    assert(again.take(at) =~= head);
    assert(again.skip(at) =~= stray + tail);
    assert(twice == join_lines(head + block + (stray + tail)));
    if stray.len() == 0 {
        assert(stray + tail =~= tail);
    } else {
        lemma_join_lines_concat(head + block, tail);
        lemma_join_lines_concat(head + block, stray + tail);
        lemma_join_lines_concat(stray, tail);
        lemma_join_lines_len(stray);
        assert(twice.len() > once.len());
    }
}

/// The lines of the patched text are the patched lines of the document, where
/// neither a host nor the target holds a line break.
pub proof fn lemma_patched_text_lines(text: Seq<char>, hosts: Seq<Seq<char>>, target: Seq<char>)
    requires
        text_has_anchor(text),
        hosts_newline_free(hosts),
        newline_free(target),
    ensures
        split_lines(patched_text(text, hosts, target)) == patched_lines(
            split_lines(text),
            hosts,
            target,
        ),
{
    let lines = split_lines(text);
    let kept = user_lines(lines);
    let at = anchor_position(kept) as int + 1;
    let out = patched_lines(lines, hosts, target);
    lemma_split_lines_newline_free(text);
    lemma_user_lines(lines);
    lemma_anchor_position(kept);
    assert forall|i: int| 0 <= i < out.len() implies newline_free(#[trigger] out[i]) by {
        if i < at {
            assert(out[i] == kept[i]);
        } else if i < at + hosts.len() {
            assert(out[i] == managed_entry(hosts[i - at], target));
            lemma_entry_newline_free(hosts[i - at], target);
        } else {
            assert(out[i] == kept[i - hosts.len()]);
        }
    }
    lemma_split_join(out);
}

} // verus!
