//! Cutting strings into pieces.
//!
//! Strings are modelled by their sequences of characters.
use vstd::prelude::*;

verus! {

/// The part of `s` before the first `c`; the whole of `s` where `c` does not occur.
pub open spec fn before(s: Seq<char>, c: char) -> Seq<char>
    decreases s.len(),
{
    if s.len() == 0 || s[0] == c {
        Seq::empty()
    } else {
        seq![s[0]] + before(s.drop_first(), c)
    }
}

/// `sep` stands in `s` at position `i`.
pub open spec fn occurs_at(s: Seq<char>, sep: Seq<char>, i: int) -> bool {
    &&& 0 <= i
    &&& i + sep.len() <= s.len()
    &&& s.subrange(i, i + sep.len()) == sep
}

/// The first position from `from` on at which `sep` stands in `s`.
pub open spec fn find_from(s: Seq<char>, sep: Seq<char>, from: int) -> Option<int>
    decreases s.len() - from + 1,
{
    if from < 0 || from + sep.len() > s.len() {
        None
    } else if occurs_at(s, sep, from) {
        Some(from)
    } else {
        find_from(s, sep, from + 1)
    }
}

/// The pieces of `s` between the occurrences of `sep`, which are taken from the left and do not
/// overlap. There is always at least one piece.
pub open spec fn split(s: Seq<char>, sep: Seq<char>) -> Seq<Seq<char>>
    decreases s.len(),
    via split_decreases
{
    match find_from(s, sep, 0) {
        Some(i) if sep.len() > 0 => seq![s.take(i)] + split(s.skip(i + sep.len()), sep),
        _ => seq![s],
    }
}

/// The characters of each of the strings.
pub open spec fn views(strings: Seq<&str>) -> Seq<Seq<char>> {
    Seq::new(strings.len(), |i: int| strings[i]@)
}

#[via_fn]
proof fn split_decreases(s: Seq<char>, sep: Seq<char>) {
    lemma_find_from(s, sep, 0);
}

/// What `find_from` finds is an occurrence, and the first one.
pub proof fn lemma_find_from(s: Seq<char>, sep: Seq<char>, from: int)
    requires
        0 <= from,
    ensures
        match find_from(s, sep, from) {
            Some(i) => from <= i && occurs_at(s, sep, i) && forall|j: int|
                from <= j < i ==> !occurs_at(s, sep, j),
            None => forall|j: int| from <= j ==> !occurs_at(s, sep, j),
        },
    decreases s.len() - from + 1,
{
    if from + sep.len() <= s.len() && !occurs_at(s, sep, from) {
        lemma_find_from(s, sep, from + 1);
    }
}

/// The first occurrence is the one that `find_from` finds.
pub proof fn lemma_find_from_is(s: Seq<char>, sep: Seq<char>, from: int, i: int)
    requires
        0 <= from <= i,
        occurs_at(s, sep, i),
        forall|j: int| from <= j < i ==> !occurs_at(s, sep, j),
    ensures
        find_from(s, sep, from) == Some(i),
{
    lemma_find_from(s, sep, from);
}

/// A piece that the first separator follows is the first one.
pub proof fn lemma_split_cut(piece: Seq<char>, sep: Seq<char>, rest: Seq<char>)
    requires
        sep.len() > 0,
        forall|j: int| 0 <= j < piece.len() ==> !occurs_at(piece + sep + rest, sep, j),
    ensures
        split(piece + sep + rest, sep) == seq![piece] + split(rest, sep),
{
    let s = piece + sep + rest;
    let n = piece.len() as int;
    assert(s.subrange(n, n + sep.len()) =~= sep);
    lemma_find_from_is(s, sep, 0, n);
    assert(s.take(n) =~= piece);
    assert(s.skip(n + sep.len()) =~= rest);
}

/// A string without separators is one piece.
pub proof fn lemma_split_whole(s: Seq<char>, sep: Seq<char>)
    requires
        forall|j: int| 0 <= j ==> !occurs_at(s, sep, j),
    ensures
        split(s, sep) == seq![s],
{
    lemma_find_from(s, sep, 0);
}

/// The pieces with separators between them.
pub open spec fn join(pieces: Seq<Seq<char>>, sep: Seq<char>) -> Seq<char>
    decreases pieces.len(),
{
    if pieces.len() == 0 {
        Seq::empty()
    } else if pieces.len() == 1 {
        pieces[0]
    } else {
        pieces[0] + sep + join(pieces.drop_first(), sep)
    }
}

/// The pieces of a string make up the string.
pub proof fn lemma_join_split(s: Seq<char>, sep: Seq<char>)
    ensures
        join(split(s, sep), sep) == s,
    decreases s.len(),
{
    lemma_find_from(s, sep, 0);
    match find_from(s, sep, 0) {
        Some(i) if sep.len() > 0 => {
            let rest = s.skip(i + sep.len());
            lemma_join_split(rest, sep);
            lemma_split_len(rest, sep);
            assert(split(s, sep).drop_first() =~= split(rest, sep));
            assert(s =~= s.take(i) + s.subrange(i, i + sep.len()) + rest);
        },
        _ => {},
    }
}

/// There is always a piece.
pub proof fn lemma_split_len(s: Seq<char>, sep: Seq<char>)
    ensures
        split(s, sep).len() > 0,
{
}

/// `before` stops at the first `c`: what it keeps has no `c`, and if it drops anything, the first
/// thing that it drops is a `c`.
pub proof fn lemma_before(s: Seq<char>, c: char)
    ensures
        before(s, c).len() <= s.len(),
        before(s, c) == s.take(before(s, c).len() as int),
        !before(s, c).contains(c),
        before(s, c).len() < s.len() ==> s[before(s, c).len() as int] == c,
    decreases s.len(),
{
    if s.len() > 0 && s[0] != c {
        let rest = s.drop_first();
        lemma_before(rest, c);
        let b = before(rest, c);
        assert(before(s, c) =~= s.take(b.len() as int + 1));
        assert(!before(s, c).contains(c)) by {
            if before(s, c).contains(c) {
                let k = choose|k: int| 0 <= k < before(s, c).len() && before(s, c)[k] == c;
                assert(k > 0);
                assert(b[k - 1] == c);
            }
        }
    } else {
        assert(before(s, c) =~= s.take(0));
    }
}

/// A prefix without `c` that ends the string, or that a `c` follows, is the part before `c`.
pub proof fn lemma_before_is(s: Seq<char>, c: char, n: int)
    requires
        0 <= n <= s.len(),
        forall|j: int| 0 <= j < n ==> s[j] != c,
        n < s.len() ==> s[n] == c,
    ensures
        before(s, c) == s.take(n),
{
    lemma_before(s, c);
    let b = before(s, c).len() as int;
    if b < n {
        assert(s[b] == c);
    } else if b > n {
        assert(before(s, c)[n] == c);
    }
}

/// The characters of `s`.
pub fn chars_of(s: &str) -> (chars: Vec<char>)
    ensures
        chars@ == s@,
{
    let mut chars: Vec<char> = Vec::new();
    for c in it: s.chars()
        invariant
            it.seq() == s@,
            chars@ == s@.take(it.index() as int),
    {
        chars.push(c);
    }
    chars
}

/// Whether two strings hold the same characters.
pub fn same(a: &str, b: &str) -> (equal: bool)
    ensures
        equal == (a@ == b@),
{
    let left = chars_of(a);
    let right = chars_of(b);
    if left.len() != right.len() {
        return false;
    }
    for i in 0..left.len()
        invariant
            left@ == a@,
            right@ == b@,
            left@.len() == right@.len(),
            forall|j: int| 0 <= j < i ==> left@[j] == right@[j],
    {
        if left[i] != right[i] {
            return false;
        }
    }
    assert(a@ =~= b@);
    true
}

/// The part of `s` before the first `c`, or all of `s`.
pub fn before_char<'a>(s: &'a str, c: char) -> (prefix: &'a str)
    ensures
        prefix@ == before(s@, c),
{
    let chars = chars_of(s);
    let mut n: usize = 0;
    while n < chars.len() && chars[n] != c
        invariant
            chars@ == s@,
            n <= chars.len(),
            forall|j: int| 0 <= j < n ==> s@[j] != c,
        decreases chars.len() - n,
    {
        n += 1;
    }
    proof {
        lemma_before_is(s@, c, n as int);
    }
    s.substring_char(0, n)
}

/// The pieces of `s` between the occurrences of `sep`.
pub fn split_str<'a>(s: &'a str, sep: &str) -> (pieces: Vec<&'a str>)
    requires
        sep@.len() > 0,
    ensures
        views(pieces@) == split(s@, sep@),
        pieces@.len() == split(s@, sep@).len(),
        forall|i: int| 0 <= i < pieces@.len() ==> (#[trigger] pieces@[i])@ == split(s@, sep@)[i],
{
    let chars = chars_of(s);
    let mark = chars_of(sep);
    let mut pieces: Vec<&'a str> = Vec::new();
    let mut start: usize = 0;
    let mut i: usize = 0;
    assert(s@.skip(0) =~= s@);
    assert(views(pieces@) + split(s@, sep@) =~= split(s@, sep@));
    while i < chars.len() && mark.len() <= chars.len() - i
        invariant
            chars@ == s@,
            mark@ == sep@,
            sep@.len() > 0,
            start <= i <= chars.len(),
            views(pieces@) + split(s@.skip(start as int), sep@) == split(s@, sep@),
            forall|j: int| start <= j < i ==> !occurs_at(s@, sep@, j),
        decreases chars.len() - i,
    {
        if stands_at(&chars, &mark, i) {
            let piece = s.substring_char(start, i);
            proof {
                lemma_split_step(s@, sep@, start as int, i as int);
                assert(views(pieces@.push(piece)) =~= views(pieces@).push(piece@));
                assert(views(pieces@).push(piece@) + split(s@.skip(i + sep@.len()), sep@)
                    =~= views(pieces@) + (seq![piece@] + split(s@.skip(i + sep@.len()), sep@)));
            }
            pieces.push(piece);
            i = i + mark.len();
            start = i;
        } else {
            i = i + 1;
        }
    }
    let last = s.substring_char(start, chars.len());
    proof {
        let rest = s@.skip(start as int);
        assert(last@ =~= rest);
        assert forall|j: int| 0 <= j implies !occurs_at(rest, sep@, j) by {
            lemma_occurs_at_skip(s@, sep@, start as int, j);
        }
        lemma_find_from(rest, sep@, 0);
        assert(split(rest, sep@) == seq![rest]);
        assert(views(pieces@.push(last)) =~= views(pieces@) + seq![rest]);
    }
    pieces.push(last);
    assert(forall|i: int| 0 <= i < pieces@.len() ==> (#[trigger] pieces@[i])@ == views(pieces@)[i]);
    pieces
}

/// Whether `mark` stands in `chars` at position `i`.
fn stands_at(chars: &Vec<char>, mark: &Vec<char>, i: usize) -> (found: bool)
    requires
        i + mark.len() <= chars.len(),
    ensures
        found == occurs_at(chars@, mark@, i as int),
{
    let ghost window = chars@.subrange(i as int, i + mark@.len());
    let end: usize = i + mark.len();
    for j in 0..mark.len()
        invariant
            end == i + mark@.len(),
            end <= chars@.len(),
            window == chars@.subrange(i as int, i + mark@.len()),
            forall|k: int| 0 <= k < j ==> window[k] == mark@[k],
    {
        if chars[i + j] != mark[j] {
            assert(window[j as int] != mark@[j as int]);
            return false;
        }
        assert(window[j as int] == mark@[j as int]);
    }
    assert(window =~= mark@);
    true
}

/// Occurrences in what is left of `s` after `start` are those of `s` from `start` on.
proof fn lemma_occurs_at_skip(s: Seq<char>, sep: Seq<char>, start: int, j: int)
    requires
        0 <= start <= s.len(),
        0 <= j,
    ensures
        occurs_at(s.skip(start), sep, j) == occurs_at(s, sep, start + j),
{
    if j + sep.len() <= s.skip(start).len() {
        assert(s.skip(start).subrange(j, j + sep.len()) =~= s.subrange(
            start + j,
            start + j + sep.len(),
        ));
    }
}

/// The first occurrence after `start` ends the piece that begins there.
proof fn lemma_split_step(s: Seq<char>, sep: Seq<char>, start: int, i: int)
    requires
        0 <= start <= i,
        sep.len() > 0,
        occurs_at(s, sep, i),
        forall|j: int| start <= j < i ==> !occurs_at(s, sep, j),
    ensures
        split(s.skip(start), sep) == seq![s.subrange(start, i)] + split(
            s.skip(i + sep.len()),
            sep,
        ),
{
    let rest = s.skip(start);
    lemma_occurs_at_skip(s, sep, start, i - start);
    assert forall|j: int| 0 <= j < i - start implies !occurs_at(rest, sep, j) by {
        lemma_occurs_at_skip(s, sep, start, j);
    }
    lemma_find_from_is(rest, sep, 0, i - start);
    assert(rest.take(i - start) =~= s.subrange(start, i));
    assert(rest.skip(i - start + sep.len()) =~= s.skip(i + sep.len()));
}

/// The part before the first `c` is what stands in front of it, or everything.
pub proof fn law_before(prefix: Seq<char>, c: char, rest: Seq<char>)
    requires
        !prefix.contains(c),
    ensures
        before(prefix + seq![c] + rest, c) == prefix,
        before(prefix, c) == prefix,
{
    let s = prefix + seq![c] + rest;
    let n = prefix.len() as int;
    assert forall|j: int| 0 <= j < n implies prefix[j] != c && s[j] != c by {
        assert(prefix.contains(prefix[j]));
    }
    lemma_before_is(s, c, n);
    lemma_before_is(prefix, c, n);
    assert(s.take(n) =~= prefix);
    assert(prefix.take(n) =~= prefix);
}

/// Where a separator follows a piece and no separator stands further left, the piece is the first
/// one, and the rest is cut on its own.
pub proof fn law_first_piece(piece: Seq<char>, sep: Seq<char>, rest: Seq<char>)
    requires
        sep.len() > 0,
        forall|j: int|
            0 <= j < piece.len() ==> #[trigger] (piece + sep + rest).subrange(j, j + sep.len())
                != sep,
    ensures
        split(piece + sep + rest, sep) == seq![piece] + split(rest, sep),
{
    assert forall|j: int| 0 <= j < piece.len() implies !occurs_at(piece + sep + rest, sep, j) by {
        assert((piece + sep + rest).subrange(j, j + sep.len()) != sep);
    }
    lemma_split_cut(piece, sep, rest);
}

/// A string in which no separator stands is a single piece.
pub proof fn law_only_piece(s: Seq<char>, sep: Seq<char>)
    requires
        forall|j: int|
            0 <= j && j + sep.len() <= s.len() ==> #[trigger] s.subrange(j, j + sep.len()) != sep,
    ensures
        split(s, sep) == seq![s],
{
    assert forall|j: int| 0 <= j implies !occurs_at(s, sep, j) by {
        if j + sep.len() <= s.len() {
            assert(s.subrange(j, j + sep.len()) != sep);
        }
    }
    lemma_split_whole(s, sep);
}

} // verus!
