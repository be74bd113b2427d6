//! Text as a sequence of characters, and its two encodings: UTF-8 bytes, in
//! which syntax nodes are measured, and UTF-16 code units, in which editors
//! count columns.

use vstd::prelude::*;
use vstd::string::*;
use vstd::utf8::*;

verus! {

/// `String::push` appends one character.
pub assume_specification[ String::push ](s: &mut String, c: char)
    ensures
        final(s)@ == old(s)@.push(c),
;

// ---------------------------------------------------------------------------
// Encoded lengths
// ---------------------------------------------------------------------------

/// Number of UTF-8 bytes of one character.
pub open spec fn char_bytes(c: char) -> nat {
    if c as u32 <= 0x7f {
        1
    } else if c as u32 <= 0x7ff {
        2
    } else if c as u32 <= 0xffff {
        3
    } else {
        4
    }
}

/// Number of UTF-16 code units of one character.
pub open spec fn char_units(c: char) -> nat {
    if c as u32 <= 0xffff {
        1
    } else {
        2
    }
}

/// Number of UTF-8 bytes of a text.
pub open spec fn byte_len(t: Seq<char>) -> nat
    decreases t.len(),
{
    if t.len() == 0 {
        0
    } else {
        byte_len(t.drop_last()) + char_bytes(t.last())
    }
}

/// Number of UTF-16 code units of a text.
pub open spec fn unit_len(t: Seq<char>) -> nat
    decreases t.len(),
{
    if t.len() == 0 {
        0
    } else {
        unit_len(t.drop_last()) + char_units(t.last())
    }
}

/// The text between the byte offsets `a` and `b`.
pub open spec fn slice_bytes(t: Seq<char>, a: int, b: int) -> Seq<char> {
    decode_utf8(encode_utf8(t).subrange(a, b))
}

/// `b` is the offset of a character of `t`, or its end.
pub open spec fn at_char(t: Seq<char>, b: int) -> bool {
    exists|k: int| 0 <= k <= t.len() && b == #[trigger] byte_len(t.take(k))
}

pub fn utf8_len(c: char) -> (n: usize)
    ensures
        n == char_bytes(c),
{
    let v: u32 = c as u32;
    if v <= 0x7f {
        1
    } else if v <= 0x7ff {
        2
    } else if v <= 0xffff {
        3
    } else {
        4
    }
}

pub fn utf16_len(c: char) -> (n: u32)
    ensures
        n == char_units(c),
{
    let v: u32 = c as u32;
    if v <= 0xffff {
        1
    } else {
        2
    }
}

pub proof fn lemma_byte_len_push(t: Seq<char>, c: char)
    ensures
        byte_len(t.push(c)) == byte_len(t) + char_bytes(c),
{
    assert(t.push(c).drop_last() =~= t);
}

pub proof fn lemma_byte_len_add(a: Seq<char>, b: Seq<char>)
    ensures
        byte_len(a + b) == byte_len(a) + byte_len(b),
    decreases b.len(),
{
    if b.len() == 0 {
        assert(a + b =~= a);
    } else {
        lemma_byte_len_add(a, b.drop_last());
        assert((a + b).drop_last() =~= a + b.drop_last());
    }
}

pub proof fn lemma_unit_len_add(a: Seq<char>, b: Seq<char>)
    ensures
        unit_len(a + b) == unit_len(a) + unit_len(b),
    decreases b.len(),
{
    if b.len() == 0 {
        assert(a + b =~= a);
    } else {
        lemma_unit_len_add(a, b.drop_last());
        assert((a + b).drop_last() =~= a + b.drop_last());
    }
}

pub proof fn lemma_unit_len_bound(t: Seq<char>)
    ensures
        unit_len(t) <= byte_len(t),
        t.len() <= unit_len(t),
    decreases t.len(),
{
    if t.len() > 0 {
        lemma_unit_len_bound(t.drop_last());
    }
}

/// Offsets of characters grow with their index.
pub proof fn lemma_byte_len_take(t: Seq<char>, i: int, j: int)
    requires
        0 <= i <= j <= t.len(),
    ensures
        byte_len(t.take(j)) == byte_len(t.take(i)) + byte_len(t.subrange(i, j)),
        i < j ==> byte_len(t.take(i)) < byte_len(t.take(j)),
        unit_len(t.take(j)) == unit_len(t.take(i)) + unit_len(t.subrange(i, j)),
        i < j ==> unit_len(t.take(i)) < unit_len(t.take(j)),
{
    assert(t.take(j) =~= t.take(i) + t.subrange(i, j));
    lemma_byte_len_add(t.take(i), t.subrange(i, j));
    lemma_unit_len_add(t.take(i), t.subrange(i, j));
    lemma_unit_len_bound(t.subrange(i, j));
}

proof fn lemma_encode_scalar_len(c: char)
    ensures
        encode_scalar(c as u32).len() == char_bytes(c),
{
    char_is_scalar(c);
}

pub proof fn lemma_encode_add(a: Seq<char>, b: Seq<char>)
    ensures
        encode_utf8(a + b) == encode_utf8(a) + encode_utf8(b),
    decreases a.len(),
{
    if a.len() == 0 {
        assert(a + b =~= b);
        assert(encode_utf8(a) + encode_utf8(b) =~= encode_utf8(b));
    } else {
        lemma_encode_add(a.drop_first(), b);
        assert((a + b).drop_first() =~= a.drop_first() + b);
        assert(encode_utf8(a + b) =~= encode_utf8(a) + encode_utf8(b));
    }
}

/// The encoded text is as long as `byte_len` says.
pub proof fn lemma_encode_len(t: Seq<char>)
    ensures
        encode_utf8(t).len() == byte_len(t),
    decreases t.len(),
{
    if t.len() > 0 {
        let init = t.drop_last();
        lemma_encode_len(init);
        assert(t =~= init + seq![t.last()]);
        lemma_encode_add(init, seq![t.last()]);
        lemma_encode_scalar_len(t.last());
        let one = seq![t.last()];
        reveal_with_fuel(encode_utf8, 2);
        assert(one.drop_first() =~= Seq::<char>::empty());
        assert(encode_utf8(one) =~= encode_scalar(t.last() as u32));
    }
}

/// Texts with the same encoding are the same.
pub proof fn lemma_encode_injective(a: Seq<char>, b: Seq<char>)
    requires
        encode_utf8(a) == encode_utf8(b),
    ensures
        a == b,
{
    encode_utf8_decode_utf8(a);
    encode_utf8_decode_utf8(b);
}

/// Slicing at the offsets of two characters takes the characters between.
pub proof fn lemma_slice_take(t: Seq<char>, i: int, j: int)
    requires
        0 <= i <= j <= t.len(),
    ensures
        slice_bytes(t, byte_len(t.take(i)) as int, byte_len(t.take(j)) as int) == t.subrange(i, j),
        encode_utf8(t).subrange(byte_len(t.take(i)) as int, byte_len(t.take(j)) as int)
            == encode_utf8(t.subrange(i, j)),
{
    let a = t.take(i);
    let m = t.subrange(i, j);
    let z = t.skip(j);
    assert(t =~= a + m + z);
    lemma_encode_add(a + m, z);
    lemma_encode_add(a, m);
    lemma_encode_len(a);
    lemma_encode_len(m);
    assert(t.take(j) =~= a + m);
    lemma_byte_len_add(a, m);
    assert(encode_utf8(t).subrange(byte_len(a) as int, (byte_len(a) + byte_len(m)) as int) =~= encode_utf8(
        m,
    ));
    encode_utf8_decode_utf8(m);
}

/// The character boundaries of the encoded text are the offsets of characters.
pub proof fn lemma_at_char_boundary(t: Seq<char>, b: int)
    ensures
        at_char(t, b) <==> is_char_boundary(encode_utf8(t), b),
    decreases t.len(),
{
    encode_utf8_valid_utf8(t);
    lemma_encode_len(t);
    if t.len() == 0 {
        assert(t.take(0) =~= t);
        if is_char_boundary(encode_utf8(t), b) {
            assert(b == byte_len(t.take(0)));
        }
    } else {
        let rest = t.drop_first();
        let w = char_bytes(t[0]) as int;
        encode_utf8_first_scalar(t);
        lemma_encode_scalar_len(t[0]);
        assert(pop_first_scalar(encode_utf8(t)) =~= encode_utf8(rest));
        lemma_at_char_boundary(rest, b - w);
        lemma_encode_len(rest);
        assert forall|k: int| 0 <= k <= rest.len() implies byte_len(t.take(k + 1)) == w
            + #[trigger] byte_len(rest.take(k)) by {
            assert(t.take(k + 1) =~= seq![t[0]] + rest.take(k));
            lemma_byte_len_add(seq![t[0]], rest.take(k));
            reveal_with_fuel(byte_len, 2);
            assert(seq![t[0]].drop_last() =~= Seq::<char>::empty());
        }
        assert(t.take(0) =~= Seq::<char>::empty());
        if at_char(t, b) {
            let k = choose|k: int| 0 <= k <= t.len() && b == #[trigger] byte_len(t.take(k));
            if k > 0 {
                assert(b - w == byte_len(rest.take(k - 1)));
                lemma_byte_len_take(t, k, t.len() as int);
                assert(t.take(t.len() as int) =~= t);
            }
        }
        if is_char_boundary(encode_utf8(t), b) {
            if b == 0 {
                assert(b == byte_len(t.take(0)));
            } else {
                let k = choose|k: int|
                    0 <= k <= rest.len() && b - w == #[trigger] byte_len(rest.take(k));
                assert(b == byte_len(t.take(k + 1)));
            }
        }
    }
}

// ---------------------------------------------------------------------------
// Comparing and slicing
// ---------------------------------------------------------------------------

/// Whether two texts are the same.
pub fn str_eq(a: &str, b: &str) -> (r: bool)
    ensures
        r == (a@ == b@),
{
    let x = a.as_bytes();
    let y = b.as_bytes();
    let n: usize = x.len();
    if n != y.len() {
        return false;
    }
    let mut i: usize = 0;
    while i < n
        invariant
            n == x@.len(),
            n == y@.len(),
            x@ == encode_utf8(a@),
            y@ == encode_utf8(b@),
            i <= n,
            forall|k: int| 0 <= k < i ==> x@[k] == y@[k],
        decreases n - i,
    {
        if x[i] != y[i] {
            return false;
        }
        i = i + 1;
    }
    proof {
        assert(x@ =~= y@);
        lemma_encode_injective(a@, b@);
    }
    true
}

/// The part of a text between two byte offsets.
pub fn byte_slice<'a>(s: &'a str, a: usize, b: usize) -> (r: &'a str)
    requires
        a <= b,
        at_char(s@, a as int),
        at_char(s@, b as int),
    ensures
        r@ == slice_bytes(s@, a as int, b as int),
{
    proof {
        lemma_at_char_boundary(s@, a as int);
        lemma_at_char_boundary(s@, b as int);
    }
    let (front, _back) = s.split_at(b);
    proof {
        let i = choose|k: int| 0 <= k <= s@.len() && a == #[trigger] byte_len(s@.take(k));
        let j = choose|k: int| 0 <= k <= s@.len() && b == #[trigger] byte_len(s@.take(k));
        if j < i {
            lemma_byte_len_take(s@, j, i);
        }
        lemma_slice_take(s@, 0, j);
        assert(s@.take(0) =~= Seq::<char>::empty());
        assert(s@.subrange(0, j) =~= s@.take(j));
        lemma_encode_injective(front@, s@.take(j));
        assert(front@.take(i) =~= s@.take(i));
        assert(at_char(front@, a as int));
        lemma_at_char_boundary(front@, a as int);
        lemma_slice_take(s@, i, j);
        lemma_encode_len(front@);
        assert(front@.subrange(i, j) =~= s@.subrange(i, j));
        lemma_slice_take(front@, i, j);
        assert(front@.take(j) =~= front@);
    }
    let (_skipped, r) = front.split_at(a);
    proof {
        let i = choose|k: int| 0 <= k <= s@.len() && a == #[trigger] byte_len(s@.take(k));
        let j = choose|k: int| 0 <= k <= s@.len() && b == #[trigger] byte_len(s@.take(k));
        lemma_encode_injective(r@, s@.subrange(i, j));
    }
    r
}

/// The characters of a text.
pub fn to_chars(s: &str) -> (r: Vec<char>)
    ensures
        r@ == s@,
{
    let mut out: Vec<char> = Vec::new();
    for c in it: s.chars()
        invariant
            it.seq() == s@,
            out@ == s@.take(it.index() as int),
    {
        out.push(c);
        proof {
            assert(s@.take(it.index() as int + 1) =~= s@.take(it.index() as int).push(c));
        }
    }
    proof {
        assert(s@.take(s@.len() as int) =~= s@);
    }
    out
}

/// Number of UTF-8 bytes of a text.
pub fn str_len(s: &str) -> (n: usize)
    ensures
        n == byte_len(s@),
{
    proof {
        lemma_encode_len(s@);
    }
    s.as_bytes().len()
}

/// The characters `a..b` of a buffer, as a text.
pub fn collect_chars(chars: &Vec<char>, a: usize, b: usize) -> (r: String)
    requires
        a <= b <= chars@.len(),
    ensures
        r@ == chars@.subrange(a as int, b as int),
{
    let mut out = String::new();
    let mut i: usize = a;
    while i < b
        invariant
            a <= i <= b <= chars@.len(),
            out@ == chars@.subrange(a as int, i as int),
        decreases b - i,
    {
        out.push(chars[i]);
        proof {
            assert(chars@.subrange(a as int, i as int).push(chars@[i as int]) =~= chars@.subrange(
                a as int,
                i + 1,
            ));
        }
        i = i + 1;
    }
    out
}

/// Two texts, one after the other.
pub fn concat(a: &str, b: &str) -> (r: String)
    ensures
        r@ == a@ + b@,
{
    let mut out = a.to_owned();
    out.append(b);
    out
}

/// Three texts, one after the other.
pub fn concat3(a: &str, b: &str, c: &str) -> (r: String)
    ensures
        r@ == a@ + b@ + c@,
{
    let mut out = a.to_owned();
    out.append(b);
    out.append(c);
    out
}

// ---------------------------------------------------------------------------
// Sequences of values with a view
// ---------------------------------------------------------------------------

/// The views of the elements of a sequence.
pub open spec fn views<T: View>(s: Seq<T>) -> Seq<T::V> {
    s.map_values(|x: T| x@)
}

/// The view of what an option holds.
pub open spec fn opt_view<T: View>(o: Option<T>) -> Option<T::V> {
    match o {
        Some(x) => Some(x@),
        None => None,
    }
}

pub proof fn lemma_views_push<T: View>(s: Seq<T>, x: T)
    ensures
        views(s.push(x)) == views(s).push(x@),
{
    assert(views(s.push(x)) =~= views(s).push(x@));
}

pub proof fn lemma_views_empty<T: View>()
    ensures
        views(Seq::<T>::empty()) == Seq::<T::V>::empty(),
{
    assert(views(Seq::<T>::empty()) =~= Seq::<T::V>::empty());
}

pub proof fn lemma_views_remove_first<T: View>(s: Seq<T>)
    requires
        s.len() > 0,
    ensures
        views(s.remove(0)) == views(s).drop_first(),
        views(s)[0] == s[0]@,
{
    assert(views(s.remove(0)) =~= views(s).drop_first());
}

pub proof fn lemma_views_add<T: View>(a: Seq<T>, b: Seq<T>)
    ensures
        views(a + b) == views(a) + views(b),
{
    assert(views(a + b) =~= views(a) + views(b));
}

// ---------------------------------------------------------------------------
// Searching
// ---------------------------------------------------------------------------

/// `p` stands in `t` at index `i`.
pub open spec fn occurs_at(t: Seq<char>, p: Seq<char>, i: int) -> bool {
    &&& 0 <= i
    &&& i + p.len() <= t.len()
    &&& t.subrange(i, i + p.len()) == p
}

/// `p` stands somewhere in `t`.
pub open spec fn contains_text(t: Seq<char>, p: Seq<char>) -> bool {
    exists|i: int| occurs_at(t, p, i)
}

/// `t` begins with `p`.
pub open spec fn starts_with(t: Seq<char>, p: Seq<char>) -> bool {
    occurs_at(t, p, 0)
}

fn match_at(t: &Vec<char>, p: &Vec<char>, i: usize) -> (r: bool)
    requires
        i <= t@.len(),
    ensures
        r == occurs_at(t@, p@, i as int),
{
    if p.len() > t.len() - i {
        return false;
    }
    let mut k: usize = 0;
    while k < p.len()
        invariant
            k <= p@.len(),
            i + p@.len() <= t@.len(),
            t@.len() <= usize::MAX,
            forall|j: int| 0 <= j < k ==> t@[i + j] == #[trigger] p@[j],
        decreases p@.len() - k,
    {
        if t[i + k] != p[k] {
            proof {
                let s = t@.subrange(i as int, i + p@.len());
                assert(s[k as int] != p@[k as int]);
            }
            return false;
        }
        k = k + 1;
    }
    proof {
        assert(t@.subrange(i as int, i + p@.len()) =~= p@);
    }
    true
}

/// Whether `needle` stands somewhere in `text`.
pub fn str_contains(text: &str, needle: &str) -> (r: bool)
    ensures
        r == contains_text(text@, needle@),
{
    let t = to_chars(text);
    let p = to_chars(needle);
    let mut i: usize = 0;
    while i < t.len()
        invariant
            t@ == text@,
            p@ == needle@,
            i <= t@.len(),
            forall|j: int| 0 <= j < i ==> !occurs_at(text@, needle@, j),
        decreases t@.len() - i,
    {
        if match_at(&t, &p, i) {
            return true;
        }
        i = i + 1;
    }
    match_at(&t, &p, i)
}

/// Whether `text` begins with `prefix`.
pub fn str_starts_with(text: &str, prefix: &str) -> (r: bool)
    ensures
        r == starts_with(text@, prefix@),
{
    let t = to_chars(text);
    let p = to_chars(prefix);
    match_at(&t, &p, 0)
}

/// `t` without its prefix `p`, if it has that prefix.
pub open spec fn stripped(t: Seq<char>, p: Seq<char>) -> Option<Seq<char>> {
    if starts_with(t, p) {
        Some(t.skip(p.len() as int))
    } else {
        None
    }
}

/// `text` without `prefix`, or `None` where it does not begin with it.
pub fn str_strip_prefix(text: &str, prefix: &str) -> (r: Option<String>)
    ensures
        opt_view(r) == stripped(text@, prefix@),
{
    let t = to_chars(text);
    let p = to_chars(prefix);
    if match_at(&t, &p, 0) {
        proof {
            assert(t@.subrange(p@.len() as int, t@.len() as int) =~= t@.skip(p@.len() as int));
        }
        Some(collect_chars(&t, p.len(), t.len()))
    } else {
        None
    }
}

// ---------------------------------------------------------------------------
// White space
// ---------------------------------------------------------------------------

/// The characters of Unicode's property `White_Space`.
pub open spec fn is_space(c: char) -> bool {
    let v = c as u32;
    ||| 0x9 <= v <= 0xd
    ||| v == 0x20
    ||| v == 0x85
    ||| v == 0xa0
    ||| v == 0x1680
    ||| 0x2000 <= v <= 0x200a
    ||| v == 0x2028
    ||| v == 0x2029
    ||| v == 0x202f
    ||| v == 0x205f
    ||| v == 0x3000
}

pub fn is_white_space(c: char) -> (r: bool)
    ensures
        r == is_space(c),
{
    let v: u32 = c as u32;
    (v >= 0x9 && v <= 0xd) || v == 0x20 || v == 0x85 || v == 0xa0 || v == 0x1680 || (v >= 0x2000
        && v <= 0x200a) || v == 0x2028 || v == 0x2029 || v == 0x202f || v == 0x205f || v == 0x3000
}

/// `t` without the white space at its end.
pub open spec fn trim_end(t: Seq<char>) -> Seq<char>
    decreases t.len(),
{
    if t.len() > 0 && is_space(t.last()) {
        trim_end(t.drop_last())
    } else {
        t
    }
}

/// `t` without the white space at its start.
pub open spec fn trim_start(t: Seq<char>) -> Seq<char>
    decreases t.len(),
{
    if t.len() > 0 && is_space(t[0]) {
        trim_start(t.drop_first())
    } else {
        t
    }
}

/// The index in `t`, from `a` on, at which its characters up to `b` end once the
/// white space at their end is taken away.
pub fn skip_space_back(t: &Vec<char>, a: usize, b: usize) -> (e: usize)
    requires
        a <= b <= t@.len(),
    ensures
        a <= e <= b,
        trim_end(t@.subrange(a as int, b as int)) == t@.subrange(a as int, e as int),
{
    let mut e: usize = b;
    let ghost whole = trim_end(t@.subrange(a as int, b as int));
    while e > a && is_white_space(t[e - 1])
        invariant
            a <= e <= b <= t@.len(),
            whole == trim_end(t@.subrange(a as int, e as int)),
        decreases e,
    {
        proof {
            assert(t@.subrange(a as int, e as int).drop_last() =~= t@.subrange(a as int, e - 1));
        }
        e = e - 1;
    }
    e
}

/// The index in `t` at which its characters from `a` to `b` start once the white
/// space at their start is taken away.
pub fn skip_space(t: &Vec<char>, a: usize, b: usize) -> (s: usize)
    requires
        a <= b <= t@.len(),
    ensures
        a <= s <= b,
        trim_start(t@.subrange(a as int, b as int)) == t@.subrange(s as int, b as int),
{
    let mut s: usize = a;
    let ghost whole = trim_start(t@.subrange(a as int, b as int));
    while s < b && is_white_space(t[s])
        invariant
            a <= s <= b <= t@.len(),
            whole == trim_start(t@.subrange(s as int, b as int)),
        decreases b - s,
    {
        proof {
            assert(t@.subrange(s as int, b as int).drop_first() =~= t@.subrange(s + 1, b as int));
        }
        s = s + 1;
    }
    s
}

/// `text` without the white space at its end.
pub fn str_trim_end(text: &str) -> (r: String)
    ensures
        r@ == trim_end(text@),
{
    let t = to_chars(text);
    let n: usize = t.len();
    let e: usize = skip_space_back(&t, 0, n);
    proof {
        assert(t@.subrange(0, n as int) =~= text@);
    }
    collect_chars(&t, 0, e)
}

/// `text` without the white space at its start.
pub fn str_trim_start(text: &str) -> (r: String)
    ensures
        r@ == trim_start(text@),
{
    let t = to_chars(text);
    let n: usize = t.len();
    let s: usize = skip_space(&t, 0, n);
    proof {
        assert(t@.subrange(0, n as int) =~= text@);
    }
    collect_chars(&t, s, n)
}

/// What is left has no white space at its end, and is all of `t` up to there.
pub proof fn lemma_trim_end(t: Seq<char>)
    ensures
        trim_end(t).len() <= t.len(),
        trim_end(t) == t.take(trim_end(t).len() as int),
        trim_end(t).len() > 0 ==> !is_space(trim_end(t).last()),
        trim_end(trim_end(t)) == trim_end(t),
        forall|i: int| trim_end(t).len() <= i < t.len() ==> is_space(#[trigger] t[i]),
    decreases t.len(),
{
    if t.len() > 0 && is_space(t.last()) {
        let init = t.drop_last();
        lemma_trim_end(init);
        assert(trim_end(t) =~= t.take(trim_end(t).len() as int));
        assert forall|i: int| trim_end(t).len() <= i < t.len() implies is_space(
            #[trigger] t[i],
        ) by {
            if i < init.len() {
                assert(init[i] == t[i]);
            }
        }
    } else {
        assert(t.take(t.len() as int) =~= t);
    }
}

/// What is left has no white space at its start.
pub proof fn lemma_trim_start(t: Seq<char>)
    ensures
        trim_start(t).len() <= t.len(),
        trim_start(t) == t.skip(t.len() - trim_start(t).len()),
        trim_start(t).len() > 0 ==> !is_space(trim_start(t)[0]),
    decreases t.len(),
{
    if t.len() > 0 && is_space(t[0]) {
        lemma_trim_start(t.drop_first());
        assert(trim_start(t) =~= t.skip(t.len() - trim_start(t).len()));
    } else {
        assert(t.skip(0) =~= t);
    }
}

// ---------------------------------------------------------------------------
// Splitting and joining
// ---------------------------------------------------------------------------

/// The parts of `t` between the characters `sep`; one more than there are such
/// characters.
pub open spec fn split(t: Seq<char>, sep: char) -> Seq<Seq<char>>
    decreases t.len(),
{
    if t.len() == 0 {
        seq![Seq::empty()]
    } else {
        let parts = split(t.drop_last(), sep);
        if t.last() == sep {
            parts.push(Seq::empty())
        } else {
            parts.drop_last().push(parts.last().push(t.last()))
        }
    }
}

/// The texts with `sep` between them.
pub open spec fn join(parts: Seq<Seq<char>>, sep: Seq<char>) -> Seq<char>
    decreases parts.len(),
{
    if parts.len() == 0 {
        Seq::empty()
    } else if parts.len() == 1 {
        parts[0]
    } else {
        join(parts.drop_last(), sep) + sep + parts.last()
    }
}

pub proof fn lemma_split_len(t: Seq<char>, sep: char)
    ensures
        split(t, sep).len() >= 1,
        forall|i: int, j: int|
            #![trigger split(t, sep)[i][j]]
            0 <= i < split(t, sep).len() && 0 <= j < split(t, sep)[i].len() ==> split(
                t,
                sep,
            )[i][j] != sep,
    decreases t.len(),
{
    if t.len() > 0 {
        lemma_split_len(t.drop_last(), sep);
        let parts = split(t.drop_last(), sep);
        assert forall|i: int, j: int|
            #![trigger split(t, sep)[i][j]]
            0 <= i < split(t, sep).len() && 0 <= j < split(t, sep)[i].len() implies split(
            t,
            sep,
        )[i][j] != sep by {
            if t.last() == sep {
                if i < parts.len() {
                    assert(split(t, sep)[i] == parts[i]);
                    assert(parts[i][j] != sep);
                }
            } else if i < parts.len() - 1 {
                assert(split(t, sep)[i] == parts[i]);
                assert(parts[i][j] != sep);
            } else if j < parts.last().len() {
                assert(parts[parts.len() - 1][j] != sep);
            }
        }
    }
}

proof fn lemma_join_split(t: Seq<char>, sep: char)
    ensures
        join(split(t, sep), seq![sep]) == t,
    decreases t.len(),
{
    let s = seq![sep];
    if t.len() > 0 {
        let init = t.drop_last();
        lemma_join_split(init, sep);
        lemma_split_len(init, sep);
        let parts = split(init, sep);
        let all = split(t, sep);
        assert(all.drop_last() =~= if t.last() == sep {
            parts
        } else {
            parts.drop_last()
        });
        if t.last() == sep {
            assert(join(all, s) =~= init + s);
        } else {
            assert(join(all, s) =~= join(parts, s).push(t.last()));
        }
        assert(join(all, s) =~= t);
    } else {
        assert(join(split(t, sep), s) =~= t);
    }
}

/// The parts of a text hold no separator, and with a separator between each two of
/// them they are the text again.
pub proof fn law_split_is_undone_by_join(t: Seq<char>, sep: char, i: int)
    ensures
        join(split(t, sep), seq![sep]) == t,
        split(t, sep).len() > 0,
        0 <= i < split(t, sep).len() ==> !split(t, sep)[i].contains(sep),
{
    lemma_join_split(t, sep);
    lemma_split_len(t, sep);
    if 0 <= i < split(t, sep).len() {
        let part = split(t, sep)[i];
        assert forall|j: int| 0 <= j < part.len() implies part[j] != sep by {
            assert(split(t, sep)[i][j] != sep);
        }
    }
}

/// Trimming takes away white space and nothing else: only at the end, or only at
/// the start, and all that stands there.
pub proof fn law_trimming_takes_white_space(t: Seq<char>, i: int)
    ensures
        ({
            let end = trim_end(t).len() as int;
            &&& end <= t.len()
            &&& trim_end(t) == t.take(end)
            &&& end > 0 ==> !is_space(t[end - 1])
            &&& end <= i < t.len() ==> is_space(t[i])
        }),
        ({
            let start = t.len() - trim_start(t).len();
            &&& 0 <= start
            &&& trim_start(t) == t.skip(start)
            &&& start < t.len() ==> !is_space(t[start])
            &&& 0 <= i < start ==> is_space(t[i])
        }),
{
    lemma_trim_end(t);
    lemma_trim_start_spaces(t);
}

proof fn lemma_trim_start_spaces(t: Seq<char>)
    ensures
        trim_start(t).len() <= t.len(),
        trim_start(t) == t.skip(t.len() - trim_start(t).len()),
        trim_start(t).len() > 0 ==> !is_space(t[t.len() - trim_start(t).len()]),
        forall|i: int| 0 <= i < t.len() - trim_start(t).len() ==> is_space(#[trigger] t[i]),
    decreases t.len(),
{
    lemma_trim_start(t);
    if t.len() > 0 && is_space(t[0]) {
        let rest = t.drop_first();
        lemma_trim_start_spaces(rest);
        assert forall|i: int| 0 <= i < t.len() - trim_start(t).len() implies is_space(
            #[trigger] t[i],
        ) by {
            if i > 0 {
                assert(rest[i - 1] == t[i]);
            }
        }
    }
}

/// The printable characters of ASCII but the blank are no white space; the blank,
/// the tab and the line breaks are.
pub proof fn law_white_space_of_ascii(c: char)
    requires
        c as u32 <= 0x7e,
    ensures
        c as u32 > 0x20 ==> !is_space(c),
        c == ' ' || c == '\t' || c == '\n' || c == '\r' ==> is_space(c),
{
}

/// A prefix is stripped where it stands, and what is left is what stood behind it.
pub proof fn law_strip_prefix(p: Seq<char>, t: Seq<char>)
    ensures
        stripped(p + t, p) == Some(t),
        starts_with(p + t, p),
        stripped(t, p) matches Some(rest) ==> t == p + rest,
        stripped(t, p) is None ==> forall|rest: Seq<char>| t != #[trigger] (p + rest),
{
    let n = p.len() as int;
    assert((p + t).subrange(0, n) =~= p);
    assert((p + t).skip(n) =~= t);
    if stripped(t, p) is Some {
        assert(t.subrange(0, n) == p);
        assert(t =~= p + t.skip(n));
    } else {
        assert forall|rest: Seq<char>| t != #[trigger] (p + rest) by {
            assert((p + rest).subrange(0, n) =~= p);
        }
    }
}

/// A text stands in another where that one is the text with something before it and
/// something behind it.
pub proof fn law_contained_text(before: Seq<char>, p: Seq<char>, behind: Seq<char>, t: Seq<char>)
    ensures
        contains_text(before + p + behind, p),
        contains_text(t, p) ==> exists|a: Seq<char>, b: Seq<char>| t == #[trigger] (a + p + b),
{
    let whole = before + p + behind;
    let at = before.len() as int;
    assert(whole.subrange(at, at + p.len()) =~= p);
    assert(occurs_at(whole, p, at));
    if contains_text(t, p) {
        let i = choose|i: int| occurs_at(t, p, i);
        assert(t =~= t.take(i) + p + t.skip(i + p.len()));
    }
}

/// Text without a separator goes on in the last part.
proof fn lemma_split_more(t: Seq<char>, s: Seq<char>, sep: char)
    requires
        !s.contains(sep),
    ensures
        split(t + s, sep) == split(t, sep).drop_last().push(split(t, sep).last() + s),
    decreases s.len(),
{
    lemma_split_len(t, sep);
    let parts = split(t, sep);
    if s.len() == 0 {
        assert(t + s =~= t);
        assert(parts.last() + s =~= parts.last());
        assert(parts.drop_last().push(parts.last()) =~= parts);
    } else {
        let init = s.drop_last();
        assert(!init.contains(sep)) by {
            if init.contains(sep) {
                let k = choose|k: int| 0 <= k < init.len() && init[k] == sep;
                assert(s[k] == sep);
            }
        }
        lemma_split_more(t, init, sep);
        assert((t + s).drop_last() =~= t + init);
        assert(s[s.len() - 1] != sep);
        assert(split(t + init, sep).drop_last() =~= parts.drop_last());
        assert((parts.last() + init).push(s.last()) =~= parts.last() + s);
    }
}

/// Splitting takes texts without a separator apart again that were joined by it.
pub proof fn law_join_is_undone_by_split(parts: Seq<Seq<char>>, sep: char)
    requires
        parts.len() > 0,
        forall|i: int| 0 <= i < parts.len() ==> !(#[trigger] parts[i]).contains(sep),
    ensures
        split(join(parts, seq![sep]), sep) == parts,
    decreases parts.len(),
{
    let last = parts.last();
    assert(!parts[parts.len() - 1].contains(sep));
    if parts.len() == 1 {
        let none = Seq::<char>::empty();
        lemma_split_more(none, last, sep);
        assert(none + last =~= last);
        assert(split(none, sep).drop_last().push(none + last) =~= parts);
    } else {
        let init = parts.drop_last();
        assert forall|i: int| 0 <= i < init.len() implies !(#[trigger] init[i]).contains(sep) by {
            assert(parts[i] == init[i]);
        }
        law_join_is_undone_by_split(init, sep);
        let broken = join(init, seq![sep]) + seq![sep];
        assert(broken.drop_last() =~= join(init, seq![sep]));
        assert(split(broken, sep) == init.push(Seq::empty()));
        lemma_split_more(broken, last, sep);
        assert(init.push(Seq::<char>::empty()).drop_last() =~= init);
        assert(Seq::<char>::empty() + last =~= last);
        assert(init.push(last) =~= parts);
    }
}

/// The parts of `text` between the characters `sep`.
pub fn str_split(text: &str, sep: char) -> (r: Vec<String>)
    ensures
        views(r@) == split(text@, sep),
{
    let mut done: Vec<String> = Vec::new();
    let mut current = String::new();
    let ghost mut k: int = 0;
    proof {
        assert(text@.take(0) =~= Seq::<char>::empty());
        lemma_views_empty::<String>();
        assert(views(done@).push(current@) =~= seq![Seq::<char>::empty()]);
    }
    for c in it: text.chars()
        invariant
            it.seq() == text@,
            k == it.index(),
            views(done@).push(current@) == split(text@.take(k), sep),
    {
        proof {
            assert(text@.take(k + 1).drop_last() =~= text@.take(k));
        }
        let ghost before = views(done@).push(current@);
        if c == sep {
            let ghost held = done@;
            done.push(current);
            current = String::new();
            proof {
                lemma_views_push(held, done@.last());
                assert(views(done@).push(current@) =~= before.push(Seq::empty()));
            }
        } else {
            current.push(c);
            proof {
                assert(before.drop_last() =~= views(done@));
            }
        }
        proof {
            k = k + 1;
        }
    }
    proof {
        assert(text@.take(text@.len() as int) =~= text@);
        lemma_views_push(done@, current);
    }
    done.push(current);
    done
}

/// The texts with `sep` between them.
pub fn str_join(parts: &Vec<String>, sep: &str) -> (r: String)
    ensures
        r@ == join(views(parts@), sep@),
{
    let mut out = String::new();
    let mut i: usize = 0;
    proof {
        assert(views(parts@).take(0) =~= Seq::empty());
    }
    while i < parts.len()
        invariant
            i <= parts@.len(),
            out@ == join(views(parts@).take(i as int), sep@),
        decreases parts@.len() - i,
    {
        proof {
            let next = views(parts@).take(i + 1);
            assert(next.drop_last() =~= views(parts@).take(i as int));
            assert(next.last() == parts@[i as int]@);
        }
        if i > 0 {
            out.append(sep);
        }
        out.append(parts[i].as_str());
        proof {
            if i == 0 {
                assert(out@ =~= parts@[0]@);
            }
        }
        i = i + 1;
    }
    proof {
        assert(views(parts@).take(parts@.len() as int) =~= views(parts@));
    }
    out
}

// ---------------------------------------------------------------------------
// Order
// ---------------------------------------------------------------------------

/// `a` comes before `b`, or is `b`, character by character.
pub open spec fn text_le(a: Seq<char>, b: Seq<char>) -> bool
    decreases a.len(),
{
    if a.len() == 0 {
        true
    } else if b.len() == 0 {
        false
    } else if a[0] == b[0] {
        text_le(a.drop_first(), b.drop_first())
    } else {
        (a[0] as int) < (b[0] as int)
    }
}

/// The first character in which two texts differ puts them in order, and a text comes
/// before those that go on from it.
pub proof fn law_text_order(same: Seq<char>, x: char, a: Seq<char>, y: char, b: Seq<char>)
    ensures
        text_le(same, same + a),
        a.len() > 0 ==> !text_le(same + a, same),
        x < y ==> text_le(same + (seq![x] + a), same + (seq![y] + b)) && !text_le(
            same + (seq![y] + b),
            same + (seq![x] + a),
        ),
    decreases same.len(),
{
    let s = same + (seq![x] + a);
    let t = same + (seq![y] + b);
    if same.len() == 0 {
        assert(s =~= seq![x] + a);
        assert(t =~= seq![y] + b);
        assert(same + a =~= a);
    } else {
        let rest = same.drop_first();
        law_text_order(rest, x, a, y, b);
        assert(s.drop_first() =~= rest + (seq![x] + a));
        assert(t.drop_first() =~= rest + (seq![y] + b));
        assert((same + a).drop_first() =~= rest + a);
    }
}

pub proof fn lemma_text_le_total(a: Seq<char>, b: Seq<char>)
    ensures
        text_le(a, b) || text_le(b, a),
        text_le(a, b) && text_le(b, a) ==> a == b,
    decreases a.len(),
{
    if a.len() > 0 && b.len() > 0 && a[0] == b[0] {
        lemma_text_le_total(a.drop_first(), b.drop_first());
        if a.drop_first() == b.drop_first() {
            assert(a =~= seq![a[0]] + a.drop_first());
            assert(b =~= seq![b[0]] + b.drop_first());
        }
    } else if a.len() == 0 && b.len() == 0 {
        assert(a =~= b);
    }
}

pub proof fn lemma_text_le_trans(a: Seq<char>, b: Seq<char>, c: Seq<char>)
    requires
        text_le(a, b),
        text_le(b, c),
    ensures
        text_le(a, c),
    decreases a.len(),
{
    if a.len() > 0 && b.len() > 0 && c.len() > 0 && a[0] == b[0] && b[0] == c[0] {
        lemma_text_le_trans(a.drop_first(), b.drop_first(), c.drop_first());
    }
}

/// Whether `a` comes before `b`, or is `b`.
pub fn str_le(a: &str, b: &str) -> (r: bool)
    ensures
        r == text_le(a@, b@),
{
    let x = to_chars(a);
    let y = to_chars(b);
    let mut i: usize = 0;
    proof {
        assert(a@.skip(0) =~= a@);
        assert(b@.skip(0) =~= b@);
    }
    while i < x.len() && i < y.len()
        invariant
            x@ == a@,
            y@ == b@,
            i <= x@.len(),
            i <= y@.len(),
            text_le(a@, b@) == text_le(a@.skip(i as int), b@.skip(i as int)),
        decreases x@.len() - i,
    {
        if x[i] != y[i] {
            return x[i] < y[i];
        }
        proof {
            assert(a@.skip(i as int).drop_first() =~= a@.skip(i + 1));
            assert(b@.skip(i as int).drop_first() =~= b@.skip(i + 1));
        }
        i = i + 1;
    }
    i == x.len()
}

// ---------------------------------------------------------------------------
// Numbers
// ---------------------------------------------------------------------------

/// The decimal digit `d`.
pub open spec fn digit(d: int) -> char {
    (0x30 + d) as char
}

/// A number in decimal digits.
pub open spec fn decimal(n: nat) -> Seq<char>
    decreases n,
{
    if n < 10 {
        seq![digit(n as int)]
    } else {
        decimal(n / 10).push(digit((n % 10) as int))
    }
}

/// A number is written with its last digit last, behind the digits of the tens; a number
/// below ten is one digit.
pub proof fn law_decimal_digits(n: nat, d: nat)
    requires
        d < 10,
    ensures
        decimal(d) == seq![(48 + d) as char],
        n > 0 ==> decimal(10 * n + d) == decimal(n) + seq![(48 + d) as char],
{
    if n > 0 {
        assert((10 * n + d) / 10 == n && (10 * n + d) % 10 == d);
        assert(decimal(10 * n + d) =~= decimal(n) + seq![(48 + d) as char]);
    }
}

fn digit_char(d: u64) -> (c: char)
    requires
        d < 10,
    ensures
        c == digit(d as int),
{
    let v: u8 = 0x30 + d as u8;
    v as char
}

/// A number in decimal digits.
pub fn to_decimal(n: u64) -> (r: String)
    ensures
        r@ == decimal(n as nat),
    decreases n,
{
    if n < 10 {
        let mut out = String::new();
        out.push(digit_char(n));
        proof {
            assert(out@ =~= seq![digit(n as int)]);
        }
        out
    } else {
        let mut out = to_decimal(n / 10);
        out.push(digit_char(n % 10));
        out
    }
}

}
