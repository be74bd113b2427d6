//! Document formatting — deliberately conservative because Pine's indentation is
//! significant: trim trailing whitespace per line, drop trailing blank lines,
//! and guarantee exactly one final newline. No reindentation or operator
//! spacing (those risk changing semantics).

use vstd::prelude::*;
use vstd::string::*;

use crate::document::{spliced, Document};
use crate::lsp::{
    byte_position, law_range_round_trip, place, range_bytes, EditTextFacts, Position, Range,
    TextEdit,
};
use crate::strings::{
    byte_len, is_space, join, law_split_is_undone_by_join, lemma_slice_take, lemma_split_len,
    lemma_trim_end, lemma_views_empty, lemma_views_push, split, str_eq, str_join, str_len,
    str_split, str_trim_end, trim_end, views,
};
use crate::text::law_position_of_start;

verus! {

/// The lines of a text without the white space at their ends.
pub open spec fn trimmed_lines(text: Seq<char>) -> Seq<Seq<char>> {
    split(text, '\n').map_values(|line: Seq<char>| trim_end(line))
}

/// The lines without the empty ones at the end.
pub open spec fn drop_blank_tail(lines: Seq<Seq<char>>) -> Seq<Seq<char>>
    decreases lines.len(),
{
    if lines.len() > 0 && lines.last().len() == 0 {
        drop_blank_tail(lines.drop_last())
    } else {
        lines
    }
}

/// Each line with its line break.
pub open spec fn with_breaks(lines: Seq<Seq<char>>) -> Seq<char> {
    if lines.len() == 0 {
        Seq::empty()
    } else {
        join(lines, "\n"@) + "\n"@
    }
}

/// The formatted text.
pub open spec fn formatted(text: Seq<char>) -> Seq<char> {
    with_breaks(drop_blank_tail(trimmed_lines(text)))
}

// ---------------------------------------------------------------------------
// Laws
// ---------------------------------------------------------------------------

/// Lines as formatting leaves them: no break inside, no white space at the end.
spec fn clean_lines(lines: Seq<Seq<char>>) -> bool {
    forall|i: int|
        0 <= i < lines.len() ==> trim_end(#[trigger] lines[i]) == lines[i] && !lines[i].contains(
            '\n',
        )
}

proof fn lemma_trimmed_clean(text: Seq<char>)
    ensures
        clean_lines(trimmed_lines(text)),
{
    lemma_split_len(text, '\n');
    let parts = split(text, '\n');
    let lines = trimmed_lines(text);
    assert forall|i: int| 0 <= i < lines.len() implies trim_end(#[trigger] lines[i]) == lines[i]
        && !lines[i].contains('\n') by {
        lemma_trim_end(parts[i]);
        assert forall|j: int| 0 <= j < lines[i].len() implies lines[i][j] != '\n' by {
            assert(parts[i][j] != '\n');
        }
    }
}

proof fn lemma_drop_blank_tail(lines: Seq<Seq<char>>)
    ensures
        drop_blank_tail(lines).len() <= lines.len(),
        drop_blank_tail(lines) == lines.take(drop_blank_tail(lines).len() as int),
        drop_blank_tail(lines).len() > 0 ==> drop_blank_tail(lines).last().len() > 0,
        clean_lines(lines) ==> clean_lines(drop_blank_tail(lines)),
    decreases lines.len(),
{
    if lines.len() > 0 && lines.last().len() == 0 {
        let init = lines.drop_last();
        lemma_drop_blank_tail(init);
        assert(drop_blank_tail(lines) =~= lines.take(drop_blank_tail(lines).len() as int));
        if clean_lines(lines) {
            assert forall|i: int| 0 <= i < init.len() implies trim_end(#[trigger] init[i])
                == init[i] && !init[i].contains('\n') by {
                assert(lines[i] == init[i]);
            }
        }
    } else {
        assert(lines.take(lines.len() as int) =~= lines);
    }
}

/// Text without a separator goes on in the last part.
proof fn lemma_split_plain(t: Seq<char>, s: Seq<char>, sep: char)
    requires
        !s.contains(sep),
    ensures
        split(t + s, sep) == split(t, sep).drop_last().push(split(t, sep).last() + s),
    decreases s.len(),
{
    lemma_split_len(t, sep);
    let parts = split(t, sep);
    if s.len() == 0 {
        assert(t + s =~= t);
        assert(parts.last() + s =~= parts.last());
        assert(parts.drop_last().push(parts.last()) =~= parts);
    } else {
        let init = s.drop_last();
        assert(!init.contains(sep)) by {
            if init.contains(sep) {
                let k = choose|k: int| 0 <= k < init.len() && init[k] == sep;
                assert(s[k] == sep);
            }
        }
        lemma_split_plain(t, init, sep);
        assert((t + s).drop_last() =~= t + init);
        assert((t + s).last() == s.last());
        assert(s.last() != sep) by {
            assert(s[s.len() - 1] == s.last());
        }
        let before = split(t + init, sep);
        assert(before.drop_last() =~= parts.drop_last());
        assert((parts.last() + init).push(s.last()) =~= parts.last() + s);
    }
}

/// Splitting takes a join apart again.
proof fn lemma_split_join(lines: Seq<Seq<char>>)
    requires
        lines.len() > 0,
        clean_lines(lines),
    ensures
        split(join(lines, "\n"@), '\n') == lines,
    decreases lines.len(),
{
    reveal_strlit("\n");
    let sep = "\n"@;
    let last = lines.last();
    assert(!last.contains('\n')) by {
        assert(lines[lines.len() - 1] == last);
    }
    if lines.len() == 1 {
        let none = Seq::<char>::empty();
        lemma_split_plain(none, last, '\n');
        assert(none + last =~= last);
        assert(split(none, '\n') =~= seq![none]);
        assert(split(none, '\n').drop_last().push(none + last) =~= lines);
    } else {
        let init = lines.drop_last();
        assert forall|i: int| 0 <= i < init.len() implies trim_end(#[trigger] init[i]) == init[i]
            && !init[i].contains('\n') by {
            assert(lines[i] == init[i]);
        }
        lemma_split_join(init);
        let head = join(init, sep);
        let broken = head + sep;
        assert(broken.drop_last() =~= head);
        assert(broken.last() == '\n');
        assert(split(broken, '\n') == init.push(Seq::empty()));
        lemma_split_plain(broken, last, '\n');
        assert(init.push(Seq::<char>::empty()).drop_last() =~= init);
        assert(Seq::<char>::empty() + last =~= last);
        assert(init.push(last) =~= lines);
    }
}

/// Formatting a formatted text changes nothing.
pub proof fn law_format_is_idempotent(text: Seq<char>)
    ensures
        formatted(formatted(text)) == formatted(text),
{
    let lines = drop_blank_tail(trimmed_lines(text));
    lemma_trimmed_clean(text);
    lemma_drop_blank_tail(trimmed_lines(text));
    lemma_format_of_lines(lines);
}

/// Clean lines that do not end in an empty one are their own formatting.
proof fn lemma_format_of_lines(lines: Seq<Seq<char>>)
    requires
        clean_lines(lines),
        lines.len() > 0 ==> lines.last().len() > 0,
    ensures
        drop_blank_tail(trimmed_lines(with_breaks(lines))) == lines,
{
    reveal_strlit("\n");
    let text = with_breaks(lines);
    if lines.len() == 0 {
        assert(split(text, '\n') =~= seq![Seq::<char>::empty()]);
        let trimmed = trimmed_lines(text);
        assert(trimmed =~= seq![Seq::<char>::empty()]);
        assert(trimmed.drop_last() =~= lines);
        reveal_with_fuel(drop_blank_tail, 2);
    } else {
        lemma_split_join(lines);
        let body = join(lines, "\n"@);
        assert(text.drop_last() =~= body);
        assert(text.last() == '\n');
        let parts = split(text, '\n');
        assert(parts == lines.push(Seq::empty()));
        let trimmed = trimmed_lines(text);
        assert forall|i: int| 0 <= i < trimmed.len() implies #[trigger] trimmed[i]
            == lines.push(Seq::empty())[i] by {
            if i < lines.len() {
                assert(trim_end(lines[i]) == lines[i]);
            }
        }
        assert(trimmed =~= lines.push(Seq::empty()));
        assert(trimmed.drop_last() =~= lines);
        reveal_with_fuel(drop_blank_tail, 2);
    }
}

/// A formatted text that is not empty ends in exactly one line break, and no
/// line of it ends in white space.
pub proof fn law_format_is_clean(text: Seq<char>, i: int)
    requires
        formatted(text).len() > 0,
    ensures
        formatted(text).last() == '\n',
        formatted(text).len() > 1 && formatted(text)[formatted(text).len() - 2] != '\n',
        0 <= i < split(formatted(text), '\n').len() ==> trim_end(split(formatted(text), '\n')[i])
            == split(formatted(text), '\n')[i],
{
    reveal_strlit("\n");
    let lines = drop_blank_tail(trimmed_lines(text));
    lemma_trimmed_clean(text);
    lemma_drop_blank_tail(trimmed_lines(text));
    lemma_split_join(lines);
    let body = join(lines, "\n"@);
    let out = formatted(text);
    assert(out.drop_last() =~= body);
    let parts = split(out, '\n');
    assert(parts == lines.push(Seq::empty()));
    assert(body.len() > 0 && body.last() == lines.last().last()) by {
        if lines.len() > 1 {
            assert(body == join(lines.drop_last(), "\n"@) + "\n"@ + lines.last());
        }
    }
    assert(lines[lines.len() - 1] == lines.last());
    assert(lines.last()[lines.last().len() - 1] != '\n');
    if 0 <= i < lines.len() {
        assert(parts[i] == lines[i]);
    }
}

/// The characters of a text that are no white space, in their order.
pub open spec fn visible(text: Seq<char>) -> Seq<char> {
    text.filter(|c: char| !is_space(c))
}

/// The visible characters of some lines, line after line.
spec fn visible_lines(lines: Seq<Seq<char>>) -> Seq<char>
    decreases lines.len(),
{
    if lines.len() == 0 {
        Seq::empty()
    } else {
        visible_lines(lines.drop_last()) + visible(lines.last())
    }
}

proof fn lemma_visible_add(a: Seq<char>, b: Seq<char>)
    ensures
        visible(a + b) == visible(a) + visible(b),
{
    Seq::filter_distributes_over_add(a, b, |c: char| !is_space(c));
}

proof fn lemma_visible_space(t: Seq<char>)
    requires
        forall|i: int| 0 <= i < t.len() ==> is_space(#[trigger] t[i]),
    ensures
        visible(t) == Seq::<char>::empty(),
    decreases t.len(),
{
    reveal(Seq::filter);
    if t.len() > 0 {
        let init = t.drop_last();
        assert forall|i: int| 0 <= i < init.len() implies is_space(#[trigger] init[i]) by {
            assert(init[i] == t[i]);
        }
        lemma_visible_space(init);
        assert(is_space(t[t.len() - 1]));
    }
}

proof fn lemma_visible_trim_end(t: Seq<char>)
    ensures
        visible(trim_end(t)) == visible(t),
{
    lemma_trim_end(t);
    let n = trim_end(t).len() as int;
    let tail = t.skip(n);
    assert forall|i: int| 0 <= i < tail.len() implies is_space(#[trigger] tail[i]) by {
        assert(tail[i] == t[n + i]);
    }
    lemma_visible_space(tail);
    lemma_visible_add(t.take(n), tail);
    assert(t =~= t.take(n) + tail);
    assert(visible(t) =~= visible(t.take(n)));
}

proof fn lemma_visible_join(lines: Seq<Seq<char>>)
    ensures
        visible(join(lines, "\n"@)) == visible_lines(lines),
    decreases lines.len(),
{
    reveal_strlit("\n");
    let sep = "\n"@;
    lemma_visible_space(sep);
    lemma_visible_space(Seq::<char>::empty());
    if lines.len() == 1 {
        assert(lines.drop_last() =~= Seq::empty());
        reveal_with_fuel(visible_lines, 2);
        assert(visible_lines(lines) =~= visible(lines[0]));
    } else if lines.len() > 1 {
        let init = lines.drop_last();
        lemma_visible_join(init);
        lemma_visible_add(join(init, sep) + sep, lines.last());
        lemma_visible_add(join(init, sep), sep);
        assert(visible(join(init, sep) + sep) =~= visible_lines(init));
    }
}

proof fn lemma_visible_trimmed(lines: Seq<Seq<char>>)
    ensures
        visible_lines(lines.map_values(|line: Seq<char>| trim_end(line))) == visible_lines(lines),
    decreases lines.len(),
{
    let f = |line: Seq<char>| trim_end(line);
    if lines.len() > 0 {
        lemma_visible_trimmed(lines.drop_last());
        lemma_visible_trim_end(lines.last());
        assert(lines.map_values(f).drop_last() =~= lines.drop_last().map_values(f));
    }
}

proof fn lemma_visible_tail(lines: Seq<Seq<char>>)
    ensures
        visible_lines(drop_blank_tail(lines)) == visible_lines(lines),
    decreases lines.len(),
{
    if lines.len() > 0 && lines.last().len() == 0 {
        lemma_visible_tail(lines.drop_last());
        lemma_visible_space(lines.last());
        assert(visible_lines(lines) =~= visible_lines(lines.drop_last()));
    }
}

/// Formatting keeps the content: the characters that are no white space are the same
/// before and after, and stand in the same order.
pub proof fn law_format_keeps_the_content(text: Seq<char>)
    ensures
        visible(formatted(text)) == visible(text),
{
    reveal_strlit("\n");
    let parts = split(text, '\n');
    let lines = drop_blank_tail(trimmed_lines(text));
    law_split_is_undone_by_join(text, '\n', 0);
    assert("\n"@ =~= seq!['\n']);
    lemma_visible_join(parts);
    lemma_visible_trimmed(parts);
    lemma_visible_tail(trimmed_lines(text));
    lemma_visible_join(lines);
    lemma_visible_space("\n"@);
    if lines.len() > 0 {
        lemma_visible_add(join(lines, "\n"@), "\n"@);
        assert(visible(formatted(text)) =~= visible_lines(lines));
    } else {
        lemma_visible_space(Seq::<char>::empty());
    }
}

proof fn lemma_kept_lines(lines: Seq<Seq<char>>, j: int)
    requires
        0 <= j < lines.len(),
    ensures
        lines[j].len() > 0 ==> j < drop_blank_tail(lines).len(),
        (forall|k: int| j <= k < lines.len() ==> (#[trigger] lines[k]).len() == 0)
            ==> drop_blank_tail(lines).len() <= j,
    decreases lines.len(),
{
    if lines.last().len() == 0 {
        let init = lines.drop_last();
        if j < init.len() {
            lemma_kept_lines(init, j);
            if forall|k: int| j <= k < lines.len() ==> (#[trigger] lines[k]).len() == 0 {
                assert forall|k: int| j <= k < init.len() implies (#[trigger] init[k]).len()
                    == 0 by {
                    assert(init[k] == lines[k]);
                }
            }
        } else {
            lemma_drop_blank_tail(init);
        }
    } else {
        assert(lines[lines.len() - 1].len() > 0);
    }
}

/// Formatting goes line by line: a line that something visible stands in or behind
/// stays the line of its number, from its first character, its indentation included,
/// up to its last visible one.
pub proof fn law_format_keeps_the_lines(text: Seq<char>, i: int, j: int, k: int)
    requires
        0 <= i <= j < split(text, '\n').len(),
        0 <= k < split(text, '\n')[j].len(),
        !is_space(split(text, '\n')[j][k]),
    ensures
        i < split(formatted(text), '\n').len(),
        ({
            let line = split(text, '\n')[i];
            let kept = split(formatted(text), '\n')[i];
            &&& kept.len() <= line.len()
            &&& kept == line.take(kept.len() as int)
            &&& kept.len() > 0 ==> !is_space(kept.last())
            &&& forall|x: int| kept.len() <= x < line.len() ==> is_space(#[trigger] line[x])
        }),
{
    reveal_strlit("\n");
    let parts = split(text, '\n');
    let trimmed = trimmed_lines(text);
    let lines = drop_blank_tail(trimmed);
    lemma_trim_end(parts[i]);
    lemma_trim_end(parts[j]);
    assert(trimmed[j] == trim_end(parts[j]));
    assert(trimmed[i] == trim_end(parts[i]));
    if trimmed[j].len() == 0 {
        assert(is_space(parts[j][k]));
    }
    lemma_kept_lines(trimmed, j);
    lemma_drop_blank_tail(trimmed);
    lemma_trimmed_clean(text);
    lemma_split_join(lines);
    assert(formatted(text).drop_last() =~= join(lines, "\n"@));
    assert(split(formatted(text), '\n') == lines.push(Seq::empty()));
    assert(lines[i] == trimmed[i]);
}

/// The blank lines at the end go: where nothing visible stands in line `j` or behind
/// it, nothing but the end of the text comes at its number.
pub proof fn law_format_drops_the_blank_end(text: Seq<char>, j: int)
    requires
        0 <= j < split(text, '\n').len(),
        forall|i: int, k: int|
            #![trigger split(text, '\n')[i][k]]
            j <= i < split(text, '\n').len() && 0 <= k < split(text, '\n')[i].len() ==> is_space(
                split(text, '\n')[i][k],
            ),
    ensures
        split(formatted(text), '\n').len() <= j + 1,
        j == 0 ==> formatted(text) == Seq::<char>::empty(),
{
    reveal_strlit("\n");
    let parts = split(text, '\n');
    let trimmed = trimmed_lines(text);
    let lines = drop_blank_tail(trimmed);
    assert forall|i: int| j <= i < trimmed.len() implies (#[trigger] trimmed[i]).len() == 0 by {
        lemma_trim_end(parts[i]);
        assert(trimmed[i] == trim_end(parts[i]));
        if trimmed[i].len() > 0 {
            let k = trimmed[i].len() - 1;
            assert(is_space(split(text, '\n')[i][k]));
        }
    }
    lemma_kept_lines(trimmed, j);
    lemma_drop_blank_tail(trimmed);
    lemma_trimmed_clean(text);
    if lines.len() > 0 {
        lemma_split_join(lines);
        assert(formatted(text).drop_last() =~= join(lines, "\n"@));
        assert(split(formatted(text), '\n') == lines.push(Seq::empty()));
    } else {
        assert(split(formatted(text), '\n').len() == 1);
    }
}

// ---------------------------------------------------------------------------
// Formatting
// ---------------------------------------------------------------------------

/// The formatted text.
pub fn format_text(src: &str) -> (r: String)
    ensures
        r@ == formatted(src@),
{
    let parts = str_split(src, '\n');
    let ghost all = trimmed_lines(src@);
    let mut lines: Vec<String> = Vec::new();
    let mut k: usize = 0;
    proof {
        lemma_views_empty::<String>();
        assert(all.take(0) =~= Seq::empty());
        assert(views(parts@).len() == parts@.len());
    }
    while k < parts.len()
        invariant
            k <= parts@.len(),
            views(parts@) == split(src@, '\n'),
            all == trimmed_lines(src@),
            all.len() == parts@.len(),
            views(lines@) == all.take(k as int),
        decreases parts@.len() - k,
    {
        let line = str_trim_end(parts[k].as_str());
        proof {
            lemma_views_push(lines@, line);
            assert(split(src@, '\n')[k as int] == parts@[k as int]@);
            assert(all[k as int] == line@);
            assert(all.take(k as int).push(line@) =~= all.take(k + 1));
        }
        lines.push(line);
        k = k + 1;
    }
    proof {
        assert(all.take(all.len() as int) =~= all);
    }
    let ghost kept = drop_blank_tail(all);
    while lines.len() > 0 && lines[lines.len() - 1].as_str().is_empty()
        invariant
            kept == drop_blank_tail(views(lines@)),
        decreases lines@.len(),
    {
        proof {
            assert(views(lines@).last() == lines@[lines@.len() - 1]@);
            assert(views(lines@.drop_last()) =~= views(lines@).drop_last());
        }
        lines.pop();
    }
    proof {
        if lines@.len() > 0 {
            assert(views(lines@).last() == lines@[lines@.len() - 1]@);
        }
        assert(views(lines@) == kept);
    }
    if lines.len() == 0 {
        return String::new();
    }
    let mut out = str_join(&lines, "\n");
    out.append("\n");
    out
}

/// The edit that formats a text: none where it is clean already, otherwise the
/// whole text at once.
pub open spec fn format_edits(text: Seq<char>) -> Option<Seq<EditTextFacts>> {
    if formatted(text) == text {
        None
    } else {
        Some(
            seq![
                EditTextFacts {
                    range: Range {
                        start: Position { line: 0, character: 0 },
                        end: place(text, byte_len(text) as int),
                    },
                    new_text: formatted(text),
                },
            ],
        )
    }
}

/// Applying the edit of a text gives its formatting.
pub proof fn law_format_edit_gives_the_formatting(text: Seq<char>)
    requires
        byte_len(text) <= u32::MAX,
    ensures
        match format_edits(text) {
            Some(edits) => {
                let (start, end) = range_bytes(text, edits[0].range);
                edits.len() == 1 && spliced(text, start, end, edits[0].new_text) == formatted(text)
            },
            None => formatted(text) == text,
        },
{
    let n = text.len() as int;
    assert(text.take(n) =~= text);
    assert(text.take(0) =~= Seq::<char>::empty());
    assert(byte_len(text.take(0)) == 0);
    assert(byte_len(text) == byte_len(text.take(n)));
    let len = byte_len(text) as int;
    law_range_round_trip(text, 0, len);
    law_position_of_start(text);
    lemma_slice_take(text, 0, 0);
    lemma_slice_take(text, n, n);
    assert(spliced(text, 0, len, formatted(text)) =~= formatted(text));
}

/// Format a document. Returns `None` when already clean.
pub fn format_document(doc: &Document) -> (r: Option<Vec<TextEdit>>)
    requires
        doc.wf(),
    ensures
        match r {
            Some(edits) => format_edits(doc@.text) == Some(views(edits@)),
            None => format_edits(doc@.text) is None,
        },
{
    let src = doc.text();
    let formatted = format_text(src);
    if str_eq(formatted.as_str(), src) {
        return None;
    }
    let edit = TextEdit {
        range: Range {
            start: Position { line: 0, character: 0 },
            end: byte_position(doc, str_len(src)),
        },
        new_text: formatted,
    };
    let mut edits: Vec<TextEdit> = Vec::new();
    proof {
        lemma_views_empty::<TextEdit>();
        lemma_views_push(edits@, edit);
    }
    edits.push(edit);
    proof {
        assert(views(edits@) =~= format_edits(doc@.text)->0);
    }
    Some(edits)
}

}
