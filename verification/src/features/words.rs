//! The words around a cursor.

use vstd::prelude::*;
use vstd::string::*;

use crate::strings::{
    at_char, byte_len, byte_slice, collect_chars, lemma_at_char_boundary, lemma_byte_len_take,
    lemma_slice_take, opt_view, slice_bytes, str_len, to_chars,
};
use crate::text::clamp;

verus! {

/// An ASCII letter, digit or underscore, or a dot.
pub open spec fn is_word_char(c: char) -> bool {
    ||| 'a' <= c <= 'z'
    ||| 'A' <= c <= 'Z'
    ||| '0' <= c <= '9'
    ||| c == '_'
    ||| c == '.'
}

fn is_word(c: char) -> (r: bool)
    ensures
        r == is_word_char(c),
{
    (c >= 'a' && c <= 'z') || (c >= 'A' && c <= 'Z') || (c >= '0' && c <= '9') || c == '_' || c
        == '.'
}

/// The word characters at the end of `t`.
pub open spec fn run_before(t: Seq<char>) -> Seq<char>
    decreases t.len(),
{
    if t.len() > 0 && is_word_char(t.last()) {
        run_before(t.drop_last()).push(t.last())
    } else {
        Seq::empty()
    }
}

/// The word characters at the start of `t`.
pub open spec fn run_after(t: Seq<char>) -> Seq<char>
    decreases t.len(),
{
    if t.len() > 0 && is_word_char(t[0]) {
        seq![t[0]] + run_after(t.drop_first())
    } else {
        Seq::empty()
    }
}

/// `t` without the dots at its start.
pub open spec fn undot_start(t: Seq<char>) -> Seq<char>
    decreases t.len(),
{
    if t.len() > 0 && t[0] == '.' {
        undot_start(t.drop_first())
    } else {
        t
    }
}

/// `t` without the dots at its end.
pub open spec fn undot_end(t: Seq<char>) -> Seq<char>
    decreases t.len(),
{
    if t.len() > 0 && t.last() == '.' {
        undot_end(t.drop_last())
    } else {
        t
    }
}

/// The word (possibly dotted, e.g. `ta.sma`) around the offset `byte`, without
/// stray dots at its ends. There is none inside a character or past the end.
pub open spec fn word_of(text: Seq<char>, byte: int) -> Option<Seq<char>> {
    let run = run_before(slice_bytes(text, 0, byte)) + run_after(
        slice_bytes(text, byte, byte_len(text) as int),
    );
    let word = undot_end(undot_start(run));
    if at_char(text, byte) && word.len() > 0 {
        Some(word)
    } else {
        None
    }
}

/// The run of word characters immediately *before* the offset `byte`; an offset
/// past the end counts as the end.
pub open spec fn run_of(text: Seq<char>, byte: int) -> Seq<char> {
    run_before(slice_bytes(text, 0, clamp(byte, byte_len(text) as int)))
}

fn last_run(text: &str) -> (r: String)
    ensures
        r@ == run_before(text@),
{
    let t = to_chars(text);
    let n: usize = t.len();
    let mut start: usize = n;
    proof {
        assert(t@.take(n as int) =~= t@);
        assert(t@.subrange(n as int, n as int) =~= Seq::<char>::empty());
        assert(run_before(t@) =~= run_before(t@.take(n as int)) + t@.subrange(n as int, n as int));
    }
    while start > 0 && is_word(t[start - 1])
        invariant
            start <= n,
            n == t@.len(),
            run_before(t@) == run_before(t@.take(start as int)) + t@.subrange(
                start as int,
                n as int,
            ),
        decreases start,
    {
        proof {
            let head = t@.take(start as int);
            assert(head.drop_last() =~= t@.take(start - 1));
            assert(run_before(t@.take(start - 1)) + t@.subrange(start - 1, n as int) =~= run_before(
                head,
            ) + t@.subrange(start as int, n as int));
        }
        start = start - 1;
    }
    proof {
        assert(run_before(t@.take(start as int)) =~= Seq::<char>::empty());
        assert(run_before(t@) =~= t@.subrange(start as int, n as int));
    }
    collect_chars(&t, start, n)
}

fn first_run(text: &str) -> (r: String)
    ensures
        r@ == run_after(text@),
{
    let t = to_chars(text);
    let n: usize = t.len();
    let mut end: usize = 0;
    proof {
        assert(t@.skip(0) =~= t@);
        assert(t@.subrange(0, 0) =~= Seq::<char>::empty());
        assert(run_after(t@) =~= t@.subrange(0, 0) + run_after(t@.skip(0)));
    }
    while end < n && is_word(t[end])
        invariant
            end <= n,
            n == t@.len(),
            run_after(t@) == t@.subrange(0, end as int) + run_after(t@.skip(end as int)),
        decreases n - end,
    {
        proof {
            let tail = t@.skip(end as int);
            assert(tail.drop_first() =~= t@.skip(end + 1));
            assert(t@.subrange(0, end + 1) + run_after(t@.skip(end + 1)) =~= t@.subrange(
                0,
                end as int,
            ) + run_after(tail));
        }
        end = end + 1;
    }
    proof {
        assert(run_after(t@.skip(end as int)) =~= Seq::<char>::empty());
        assert(run_after(t@) =~= t@.subrange(0, end as int));
    }
    collect_chars(&t, 0, end)
}

/// The text without dots at its ends.
fn trim_dots(text: &str) -> (r: String)
    ensures
        r@ == undot_end(undot_start(text@)),
{
    let t = to_chars(text);
    let n: usize = t.len();
    let mut start: usize = 0;
    proof {
        assert(t@.subrange(0, n as int) =~= t@);
    }
    while start < n && t[start] == '.'
        invariant
            start <= n,
            n == t@.len(),
            undot_start(t@) == undot_start(t@.subrange(start as int, n as int)),
        decreases n - start,
    {
        proof {
            assert(t@.subrange(start as int, n as int).drop_first() =~= t@.subrange(
                start + 1,
                n as int,
            ));
        }
        start = start + 1;
    }
    let ghost rest = undot_start(t@);
    let mut end: usize = n;
    while end > start && t[end - 1] == '.'
        invariant
            start <= end <= n,
            n == t@.len(),
            undot_end(rest) == undot_end(t@.subrange(start as int, end as int)),
        decreases end,
    {
        proof {
            assert(t@.subrange(start as int, end as int).drop_last() =~= t@.subrange(
                start as int,
                end - 1,
            ));
        }
        end = end - 1;
    }
    collect_chars(&t, start, end)
}

/// The word (possibly dotted, e.g. `ta.sma`) surrounding `byte`. ASCII word
/// chars + `.`; trims stray leading/trailing dots.
pub fn word_at(text: &str, byte: usize) -> (r: Option<String>)
    ensures
        opt_view(r) == word_of(text@, byte as int),
{
    proof {
        lemma_ends(text@);
        lemma_at_char_boundary(text@, byte as int);
    }
    if !text.is_char_boundary(byte) {
        return None;
    }
    let len: usize = str_len(text);
    proof {
        lemma_at_char_bound(text@, byte as int);
    }
    let mut run = last_run(byte_slice(text, 0, byte));
    run.append(first_run(byte_slice(text, byte, len)).as_str());
    let word = trim_dots(run.as_str());
    if word.as_str().is_empty() {
        None
    } else {
        Some(word)
    }
}

/// The run of word chars (incl. `.`) immediately *before* `byte` — used to
/// detect a `namespace.` member-access context.
pub fn trailing_run(text: &str, byte: usize) -> (r: String)
    requires
        byte < byte_len(text@) ==> at_char(text@, byte as int),
    ensures
        r@ == run_of(text@, byte as int),
{
    proof {
        lemma_ends(text@);
    }
    let len: usize = str_len(text);
    let end: usize = if byte < len {
        byte
    } else {
        len
    };
    last_run(byte_slice(text, 0, end))
}

/// No character starts past the end.
proof fn lemma_at_char_bound(t: Seq<char>, byte: int)
    requires
        at_char(t, byte),
    ensures
        0 <= byte <= byte_len(t),
{
    let k = choose|k: int| 0 <= k <= t.len() && byte == #[trigger] byte_len(t.take(k));
    assert(t.take(t.len() as int) =~= t);
    lemma_byte_len_take(t, k, t.len() as int);
}

/// A text starts and ends at characters.
proof fn lemma_ends(t: Seq<char>)
    ensures
        at_char(t, 0),
        at_char(t, byte_len(t) as int),
{
    assert(t.take(t.len() as int) =~= t);
    assert(t.take(0) =~= Seq::<char>::empty());
    assert(byte_len(t.take(0)) == 0);
    assert(byte_len(t) == byte_len(t.take(t.len() as int)));
}

/// The index of the last dot of `t`.
pub open spec fn last_dot(t: Seq<char>) -> Option<int>
    decreases t.len(),
{
    if t.len() == 0 {
        None
    } else if t.last() == '.' {
        Some(t.len() - 1)
    } else {
        last_dot(t.drop_last())
    }
}

/// What stands before the last dot of a run, if it has one.
pub open spec fn namespace_in(run: Seq<char>) -> Option<Seq<char>> {
    match last_dot(run) {
        Some(dot) => Some(run.take(dot)),
        None => None,
    }
}

// ---------------------------------------------------------------------------
// Laws
// ---------------------------------------------------------------------------

/// All of these are letters, digits or underscores of ASCII, or dots.
pub open spec fn is_run(t: Seq<char>) -> bool {
    forall|i: int|
        0 <= i < t.len() ==> {
            let c = #[trigger] t[i];
            'a' <= c <= 'z' || 'A' <= c <= 'Z' || '0' <= c <= '9' || c == '_' || c == '.'
        }
}

proof fn lemma_run_before(before: Seq<char>, run: Seq<char>)
    requires
        is_run(run),
        before.len() > 0 ==> !is_word_char(before.last()),
    ensures
        run_before(before + run) == run,
    decreases run.len(),
{
    let t = before + run;
    if run.len() == 0 {
        assert(t =~= before);
        assert(run_before(t) =~= run);
    } else {
        let init = run.drop_last();
        assert(is_run(init)) by {
            assert forall|i: int| 0 <= i < init.len() implies {
                let c = #[trigger] init[i];
                'a' <= c <= 'z' || 'A' <= c <= 'Z' || '0' <= c <= '9' || c == '_' || c == '.'
            } by {
                assert(init[i] == run[i]);
            }
        }
        lemma_run_before(before, init);
        assert(t.drop_last() =~= before + init);
        assert(t.last() == run[run.len() - 1]);
        assert(run_before(t) =~= run);
    }
}

proof fn lemma_run_after(run: Seq<char>, behind: Seq<char>)
    requires
        is_run(run),
        behind.len() > 0 ==> !is_word_char(behind[0]),
    ensures
        run_after(run + behind) == run,
    decreases run.len(),
{
    let t = run + behind;
    if run.len() == 0 {
        assert(t =~= behind);
        assert(run_after(t) =~= run);
    } else {
        let rest = run.drop_first();
        assert(is_run(rest)) by {
            assert forall|i: int| 0 <= i < rest.len() implies {
                let c = #[trigger] rest[i];
                'a' <= c <= 'z' || 'A' <= c <= 'Z' || '0' <= c <= '9' || c == '_' || c == '.'
            } by {
                assert(rest[i] == run[i + 1]);
            }
        }
        lemma_run_after(rest, behind);
        assert(t.drop_first() =~= rest + behind);
        assert(t[0] == run[0]);
        assert(run_after(t) =~= run);
    }
}

proof fn lemma_undot_start(dots: Seq<char>, t: Seq<char>)
    requires
        forall|i: int| 0 <= i < dots.len() ==> #[trigger] dots[i] == '.',
        t.len() > 0 ==> t[0] != '.',
    ensures
        undot_start(dots + t) == t,
    decreases dots.len(),
{
    if dots.len() == 0 {
        assert(dots + t =~= t);
    } else {
        let rest = dots.drop_first();
        assert forall|i: int| 0 <= i < rest.len() implies #[trigger] rest[i] == '.' by {
            assert(rest[i] == dots[i + 1]);
        }
        lemma_undot_start(rest, t);
        assert((dots + t).drop_first() =~= rest + t);
        assert((dots + t)[0] == dots[0]);
    }
}

proof fn lemma_undot_end(t: Seq<char>, dots: Seq<char>)
    requires
        forall|i: int| 0 <= i < dots.len() ==> #[trigger] dots[i] == '.',
        t.len() > 0 ==> t.last() != '.',
    ensures
        undot_end(t + dots) == t,
    decreases dots.len(),
{
    if dots.len() == 0 {
        assert(t + dots =~= t);
    } else {
        let init = dots.drop_last();
        assert forall|i: int| 0 <= i < init.len() implies #[trigger] init[i] == '.' by {
            assert(init[i] == dots[i]);
        }
        lemma_undot_end(t, init);
        assert((t + dots).drop_last() =~= t + init);
        assert((t + dots).last() == dots[dots.len() - 1]);
    }
}

/// A character that no word holds.
pub open spec fn is_boundary(c: char) -> bool {
    !('a' <= c <= 'z') && !('A' <= c <= 'Z') && !('0' <= c <= '9') && c != '_' && c != '.'
}

/// The word around an offset is the run of letters, digits, underscores and dots on
/// both sides of it, without the dots at its ends; there is none where nothing is
/// left.
pub proof fn law_word_around_an_offset(
    before: Seq<char>,
    left: Seq<char>,
    right: Seq<char>,
    behind: Seq<char>,
    lead: Seq<char>,
    word: Seq<char>,
    trail: Seq<char>,
)
    requires
        is_run(left),
        is_run(right),
        before.len() > 0 ==> is_boundary(before.last()),
        behind.len() > 0 ==> is_boundary(behind[0]),
        left + right == lead + word + trail,
        forall|i: int| 0 <= i < lead.len() ==> #[trigger] lead[i] == '.',
        forall|i: int| 0 <= i < trail.len() ==> #[trigger] trail[i] == '.',
        word.len() > 0 ==> word[0] != '.' && word.last() != '.',
        word.len() == 0 ==> trail.len() == 0,
    ensures
        word_of(before + left + right + behind, byte_len(before + left) as int) == if word.len()
            == 0 {
            None
        } else {
            Some(word)
        },
{
    let t = before + left + right + behind;
    let k = (before + left).len() as int;
    let n = t.len() as int;
    assert(t.take(k) =~= before + left);
    assert(t.take(n) =~= t);
    assert(t.take(0) =~= Seq::<char>::empty());
    assert(byte_len(t.take(0)) == 0);
    lemma_slice_take(t, 0, k);
    lemma_slice_take(t, k, n);
    assert(t.subrange(0, k) =~= before + left);
    assert(t.subrange(k, n) =~= right + behind);
    let byte = byte_len(t.take(k)) as int;
    assert(at_char(t, byte));
    lemma_run_before(before, left);
    lemma_run_after(right, behind);
    assert(lead + word + trail =~= lead + (word + trail));
    lemma_undot_start(lead, word + trail);
    lemma_undot_end(word, trail);
}

/// The run before an offset is what stands there of letters, digits, underscores and
/// dots.
pub proof fn law_run_before_an_offset(before: Seq<char>, run: Seq<char>, behind: Seq<char>)
    requires
        is_run(run),
        before.len() > 0 ==> is_boundary(before.last()),
    ensures
        run_of(before + run + behind, byte_len(before + run) as int) == run,
{
    let t = before + run + behind;
    let k = (before + run).len() as int;
    let n = t.len() as int;
    assert(t.take(k) =~= before + run);
    assert(t.take(n) =~= t);
    assert(t.take(0) =~= Seq::<char>::empty());
    assert(byte_len(t.take(0)) == 0);
    lemma_byte_len_take(t, k, n);
    lemma_slice_take(t, 0, k);
    assert(t.subrange(0, k) =~= before + run);
    lemma_run_before(before, run);
}

/// The namespace of a run is what stands before its last dot; a run without a dot has
/// none.
pub proof fn law_namespace_is_before_the_last_dot(namespace: Seq<char>, member: Seq<char>)
    requires
        !member.contains('.'),
    ensures
        namespace_in(namespace + "."@ + member) == Some(namespace),
        namespace_in(member) is None,
    decreases member.len(),
{
    reveal_strlit(".");
    let run = namespace + "."@ + member;
    if member.len() == 0 {
        assert(run.last() == '.');
        assert(run.take(run.len() - 1) =~= namespace);
    } else {
        let init = member.drop_last();
        assert(!init.contains('.')) by {
            if init.contains('.') {
                let i = choose|i: int| 0 <= i < init.len() && init[i] == '.';
                assert(member[i] == '.');
            }
        }
        assert(member[member.len() - 1] != '.');
        law_namespace_is_before_the_last_dot(namespace, init);
        let shorter = namespace + "."@ + init;
        assert(run.drop_last() =~= shorter);
        assert(last_dot(shorter) is Some);
        lemma_last_dot(shorter);
        assert(run.take(last_dot(shorter)->0) =~= shorter.take(last_dot(shorter)->0));
    }
}

proof fn lemma_last_dot(t: Seq<char>)
    ensures
        last_dot(t) matches Some(dot) ==> 0 <= dot < t.len(),
    decreases t.len(),
{
    if t.len() > 0 && t.last() != '.' {
        lemma_last_dot(t.drop_last());
    }
}

/// What stands before the last dot of a run, if it has one.
pub fn run_namespace(run: &str) -> (r: Option<String>)
    ensures
        opt_view(r) == namespace_in(run@),
{
    let t = to_chars(run);
    let mut k: usize = t.len();
    proof {
        assert(t@.take(k as int) =~= t@);
    }
    while k > 0
        invariant
            k <= t@.len(),
            t@ == run@,
            last_dot(run@) == last_dot(run@.take(k as int)),
        decreases k,
    {
        proof {
            assert(run@.take(k as int).drop_last() =~= run@.take(k - 1));
        }
        if t[k - 1] == '.' {
            proof {
                assert(t@.subrange(0, k - 1) =~= run@.take(k - 1));
            }
            return Some(collect_chars(&t, 0, k - 1));
        }
        k = k - 1;
    }
    None
}

}
