//! Sequences of characters: cutting at a delimiter, joining, and the
//! conversions between `str`, `String` and `Vec<char>`.
use vstd::prelude::*;
use vstd::std_specs::iter::IteratorSpec;

verus! {

/// How often `d` occurs in `s`.
pub open spec fn count(s: Seq<char>, d: char) -> nat
    decreases s.len(),
{
    if s.len() == 0 {
        0
    } else {
        count(s.drop_last(), d) + if s.last() == d {
            1nat
        } else {
            0nat
        }
    }
}

/// The pieces that `d` cuts `s` into, as `str::split` gives them: one piece
/// more than there are delimiters, empty pieces kept.
pub open spec fn split(s: Seq<char>, d: char) -> Seq<Seq<char>>
    decreases s.len(),
{
    if s.len() == 0 {
        seq![Seq::<char>::empty()]
    } else {
        let before = split(s.drop_last(), d);
        if s.last() == d {
            before.push(Seq::<char>::empty())
        } else {
            before.update(before.len() - 1, before.last().push(s.last()))
        }
    }
}

/// The pieces in order with one `d` between neighbours.
pub open spec fn join(parts: Seq<Seq<char>>, d: char) -> Seq<char>
    decreases parts.len(),
{
    if parts.len() == 0 {
        Seq::<char>::empty()
    } else if parts.len() == 1 {
        parts[0]
    } else {
        join(parts.drop_last(), d).push(d) + parts.last()
    }
}

/// The pieces in order with nothing between them.
pub open spec fn concat(parts: Seq<Seq<char>>) -> Seq<char>
    decreases parts.len(),
{
    if parts.len() == 0 {
        Seq::<char>::empty()
    } else {
        concat(parts.drop_last()) + parts.last()
    }
}

/// The views of the strings of `v`, in order.
pub open spec fn views(v: Seq<String>) -> Seq<Seq<char>> {
    Seq::new(v.len(), |i: int| v[i]@)
}

/// The views of strings go string by string.
pub proof fn lemma_views_push(v: Seq<String>, s: String)
    ensures
        views(v.push(s)) == views(v).push(s@),
{
    assert(views(v.push(s)) =~= views(v).push(s@));
}

/// One more character counts one more where it is the delimiter.
pub proof fn lemma_count_push(s: Seq<char>, c: char, d: char)
    ensures
        count(s.push(c), d) == count(s, d) + if c == d {
            1nat
        } else {
            0nat
        },
{
    assert(s.push(c).drop_last() =~= s);
}

/// One more character opens a new piece where it is the delimiter, and else
/// goes to the end of the last piece.
pub proof fn lemma_split_push(s: Seq<char>, c: char, d: char)
    ensures
        split(s.push(c), d) == if c == d {
            split(s, d).push(Seq::<char>::empty())
        } else {
            split(s, d).update(split(s, d).len() - 1, split(s, d).last().push(c))
        },
{
    assert(s.push(c).drop_last() =~= s);
}

/// A split has one piece more than the text has delimiters.
pub proof fn lemma_split_len(s: Seq<char>, d: char)
    ensures
        split(s, d).len() == count(s, d) + 1,
    decreases s.len(),
{
    if s.len() > 0 {
        lemma_split_len(s.drop_last(), d);
    }
}

/// Joining what a split gave restores the text.
pub proof fn lemma_join_split(s: Seq<char>, d: char)
    ensures
        join(split(s, d), d) == s,
    decreases s.len(),
{
    if s.len() == 0 {
        assert(join(split(s, d), d) =~= s);
    } else {
        let before = split(s.drop_last(), d);
        let parts = split(s, d);
        lemma_join_split(s.drop_last(), d);
        lemma_split_len(s.drop_last(), d);
        if s.last() == d {
            assert(parts.drop_last() =~= before);
            assert(join(parts, d) =~= s);
        } else if before.len() == 1 {
            assert(join(parts, d) =~= s);
        } else {
            let head = join(before.drop_last(), d).push(d);
            assert(parts.drop_last() =~= before.drop_last());
            assert(head + before.last().push(s.last()) =~= (head + before.last()).push(s.last()));
            assert(s.drop_last().push(s.last()) =~= s);
        }
    }
}

/// The first piece of a split is the text before the first delimiter, or the
/// whole text where there is none.
pub proof fn lemma_split_first(s: Seq<char>, d: char, k: int)
    requires
        0 <= k <= s.len(),
        forall|j: int| 0 <= j < k ==> s[j] != d,
        k == s.len() || s[k] == d,
    ensures
        split(s, d)[0] == s.take(k),
    decreases s.len(),
{
    lemma_split_len(s, d);
    if s.len() == 0 {
        assert(split(s, d)[0] =~= s.take(k));
    } else {
        let front = s.drop_last();
        lemma_split_len(front, d);
        if k == s.len() {
            lemma_split_first(front, d, k - 1);
            lemma_count_none(front, d);
            assert(front.take(k - 1).push(s.last()) =~= s.take(k));
        } else {
            lemma_split_first(front, d, k);
            if k < front.len() {
                lemma_count_some(front, d, k);
            }
            assert(front.take(k) =~= s.take(k));
        }
    }
}

/// A text without the delimiter counts none of it.
pub proof fn lemma_count_none(s: Seq<char>, d: char)
    requires
        forall|j: int| 0 <= j < s.len() ==> s[j] != d,
    ensures
        count(s, d) == 0,
    decreases s.len(),
{
    if s.len() > 0 {
        lemma_count_none(s.drop_last(), d);
    }
}

/// A text that holds the delimiter counts at least one.
pub proof fn lemma_count_some(s: Seq<char>, d: char, k: int)
    requires
        0 <= k < s.len(),
        s[k] == d,
    ensures
        count(s, d) >= 1,
    decreases s.len(),
{
    if k < s.len() - 1 {
        lemma_count_some(s.drop_last(), d, k);
    }
}

/// Counting goes part by part.
pub proof fn lemma_count_add(a: Seq<char>, b: Seq<char>, d: char)
    ensures
        count(a + b, d) == count(a, d) + count(b, d),
    decreases b.len(),
{
    if b.len() == 0 {
        assert(a + b =~= a);
    } else {
        lemma_count_add(a, b.drop_last(), d);
        assert((a + b).drop_last() =~= a + b.drop_last());
    }
}

/// The place of the first `d` in `s`, or the length of `s` where it holds
/// none.
pub open spec fn first_index(s: Seq<char>, d: char) -> int
    decreases s.len(),
{
    if s.len() == 0 || s[0] == d {
        0
    } else {
        1 + first_index(s.drop_first(), d)
    }
}

/// Nothing before the first `d` is a `d`.
pub proof fn lemma_first_index(s: Seq<char>, d: char)
    ensures
        0 <= first_index(s, d) <= s.len(),
        forall|j: int| 0 <= j < first_index(s, d) ==> s[j] != d,
        first_index(s, d) == s.len() || s[first_index(s, d)] == d,
    decreases s.len(),
{
    if s.len() != 0 && s[0] != d {
        lemma_first_index(s.drop_first(), d);
        assert forall|j: int| 0 <= j < first_index(s, d) implies s[j] != d by {
            if j > 0 {
                assert(s.drop_first()[j - 1] == s[j]);
            }
        }
    }
}

/// All the pieces are the first of them and then the others.
pub proof fn lemma_concat_first(parts: Seq<Seq<char>>)
    requires
        parts.len() >= 1,
    ensures
        concat(parts) == parts[0] + concat(parts.drop_first()),
    decreases parts.len(),
{
    if parts.len() == 1 {
        assert(parts.drop_last() =~= Seq::<Seq<char>>::empty());
        assert(parts.drop_first() =~= Seq::<Seq<char>>::empty());
        assert(concat(parts) =~= parts[0] + concat(parts.drop_first()));
    } else {
        lemma_concat_first(parts.drop_last());
        assert(parts.drop_last().drop_first() =~= parts.drop_first().drop_last());
        assert(concat(parts) =~= parts[0] + concat(parts.drop_first()));
    }
}

/// What follows the same beginning in two equal texts is equal.
pub proof fn lemma_cancel_prefix(a: Seq<char>, x: Seq<char>, y: Seq<char>)
    requires
        a + x == a + y,
    ensures
        x == y,
{
    assert(x.len() == y.len()) by {
        assert((a + x).len() == a.len() + x.len());
        assert((a + y).len() == a.len() + y.len());
    }
    assert forall|i: int| 0 <= i < x.len() implies x[i] == y[i] by {
        assert((a + x)[a.len() + i] == x[i]);
        assert((a + y)[a.len() + i] == y[i]);
    }
    assert(x =~= y);
}

/// What stands before ends of the same length in two equal texts is equal,
/// and so are the ends.
pub proof fn lemma_cancel_suffix(x: Seq<char>, a: Seq<char>, y: Seq<char>, b: Seq<char>)
    requires
        x + a == y + b,
        a.len() == b.len(),
    ensures
        x == y,
        a == b,
{
    assert(x.len() == y.len()) by {
        assert((x + a).len() == x.len() + a.len());
        assert((y + b).len() == y.len() + b.len());
    }
    assert forall|i: int| 0 <= i < x.len() implies x[i] == y[i] by {
        assert((x + a)[i] == x[i]);
        assert((y + b)[i] == y[i]);
    }
    assert forall|i: int| 0 <= i < a.len() implies a[i] == b[i] by {
        assert((x + a)[x.len() + i] == a[i]);
        assert((y + b)[y.len() + i] == b[i]);
    }
    assert(x =~= y);
    assert(a =~= b);
}

/// Pieces that are no longer, one by one, join to a text that is no longer;
/// and where the joined texts are of one length, so are the pieces.
pub proof fn lemma_join_len(a: Seq<Seq<char>>, b: Seq<Seq<char>>, d: char)
    requires
        a.len() == b.len(),
        forall|k: int| 0 <= k < a.len() ==> (#[trigger] a[k]).len() <= b[k].len(),
    ensures
        join(a, d).len() <= join(b, d).len(),
        join(a, d).len() == join(b, d).len() ==> forall|k: int|
            0 <= k < a.len() ==> (#[trigger] a[k]).len() == b[k].len(),
    decreases a.len(),
{
    if a.len() >= 2 {
        lemma_join_len(a.drop_last(), b.drop_last(), d);
        if join(a, d).len() == join(b, d).len() {
            assert forall|k: int| 0 <= k < a.len() implies (#[trigger] a[k]).len()
                == b[k].len() by {
                if k < a.len() - 1 {
                    assert(a.drop_last()[k].len() == b.drop_last()[k].len());
                }
            }
        }
    }
}

/// Pieces of the same lengths that join to the same text are the same.
pub proof fn lemma_join_pieces(a: Seq<Seq<char>>, b: Seq<Seq<char>>, d: char)
    requires
        a.len() == b.len(),
        forall|k: int| 0 <= k < a.len() ==> (#[trigger] a[k]).len() == b[k].len(),
        join(a, d) == join(b, d),
    ensures
        a == b,
    decreases a.len(),
{
    if a.len() >= 2 {
        lemma_cancel_suffix(
            join(a.drop_last(), d).push(d),
            a.last(),
            join(b.drop_last(), d).push(d),
            b.last(),
        );
        assert(join(a.drop_last(), d).push(d).drop_last() =~= join(a.drop_last(), d));
        assert(join(b.drop_last(), d).push(d).drop_last() =~= join(b.drop_last(), d));
        lemma_join_pieces(a.drop_last(), b.drop_last(), d);
        assert(a =~= a.drop_last().push(a.last()));
        assert(b =~= b.drop_last().push(b.last()));
    } else {
        assert(a =~= b);
    }
}

/// Pieces that are no longer, one by one, make a text that is no longer;
/// and where the texts are of one length, so are the pieces.
pub proof fn lemma_concat_len(a: Seq<Seq<char>>, b: Seq<Seq<char>>)
    requires
        a.len() == b.len(),
        forall|k: int| 0 <= k < a.len() ==> (#[trigger] a[k]).len() <= b[k].len(),
    ensures
        concat(a).len() <= concat(b).len(),
        concat(a).len() == concat(b).len() ==> forall|k: int|
            0 <= k < a.len() ==> (#[trigger] a[k]).len() == b[k].len(),
    decreases a.len(),
{
    if a.len() >= 1 {
        lemma_concat_len(a.drop_last(), b.drop_last());
        if concat(a).len() == concat(b).len() {
            assert forall|k: int| 0 <= k < a.len() implies (#[trigger] a[k]).len()
                == b[k].len() by {
                if k < a.len() - 1 {
                    assert(a.drop_last()[k].len() == b.drop_last()[k].len());
                }
            }
        }
    }
}

/// Pieces of the same lengths that make the same text are the same.
pub proof fn lemma_concat_pieces(a: Seq<Seq<char>>, b: Seq<Seq<char>>)
    requires
        a.len() == b.len(),
        forall|k: int| 0 <= k < a.len() ==> (#[trigger] a[k]).len() == b[k].len(),
        concat(a) == concat(b),
    ensures
        a == b,
    decreases a.len(),
{
    if a.len() >= 1 {
        lemma_cancel_suffix(concat(a.drop_last()), a.last(), concat(b.drop_last()), b.last());
        lemma_concat_pieces(a.drop_last(), b.drop_last());
        assert(a =~= a.drop_last().push(a.last()));
        assert(b =~= b.drop_last().push(b.last()));
    } else {
        assert(a =~= b);
    }
}

/// The characters of `s`, in order.
pub fn chars_of(s: &str) -> (out: Vec<char>)
    ensures
        out@ == s@,
{
    let mut out: Vec<char> = Vec::new();
    for c in it: s.chars()
        invariant
            out@ == it.seq().take(it.index() as int),
            it.seq() == s@,
    {
        out.push(c);
    }
    out
}

/// Appends `c` to `s` by `String::push`. That the string then holds what it
/// held, and `c` after it, is taken from the documentation of `String::push`
/// and not proved here.
#[verifier::external_body]
pub(crate) fn push_char(s: &mut String, c: char)
    ensures
        final(s)@ == old(s)@.push(c),
{
    s.push(c)
}

/// The string of the characters `v[from..to]`.
pub fn string_of(v: &Vec<char>, from: usize, to: usize) -> (out: String)
    requires
        from <= to <= v.len(),
    ensures
        out@ == v@.subrange(from as int, to as int),
{
    let mut out = String::new();
    let mut i: usize = from;
    while i < to
        invariant
            from <= i <= to <= v.len(),
            out@ == v@.subrange(from as int, i as int),
        decreases to - i,
    {
        push_char(&mut out, v[i]);
        i += 1;
        assert(out@ =~= v@.subrange(from as int, i as int));
    }
    out
}

/// Whether `bounds` gives, piece by piece, the place in `chars` of what `d`
/// cuts `chars[from..to]` into.
pub open spec fn bounds_of_split(
    bounds: Seq<(usize, usize)>,
    chars: Seq<char>,
    from: int,
    to: int,
    d: char,
) -> bool {
    let pieces = split(chars.subrange(from, to), d);
    &&& bounds.len() == pieces.len()
    &&& forall|k: int|
        0 <= k < bounds.len() ==> {
            &&& from <= (#[trigger] bounds[k]).0 <= bounds[k].1 <= to
            &&& chars.subrange(bounds[k].0 as int, bounds[k].1 as int) == pieces[k]
        }
}

/// Cuts `chars[from..to]` at every `d`, and says where each piece lies.
pub fn split_bounds(chars: &Vec<char>, from: usize, to: usize, d: char) -> (bounds: Vec<
    (usize, usize),
>)
    requires
        from <= to <= chars.len(),
    ensures
        bounds_of_split(bounds@, chars@, from as int, to as int, d),
{
    let mut bounds: Vec<(usize, usize)> = Vec::new();
    let mut start: usize = from;
    let mut i: usize = from;
    assert(chars@.subrange(from as int, from as int) =~= Seq::<char>::empty());
    while i < to
        invariant
            from <= start <= i <= to <= chars.len(),
            split(chars@.subrange(from as int, i as int), d).len() == bounds.len() + 1,
            split(chars@.subrange(from as int, i as int), d).last() == chars@.subrange(
                start as int,
                i as int,
            ),
            forall|k: int|
                0 <= k < bounds.len() ==> {
                    &&& from <= (#[trigger] bounds[k]).0 <= bounds[k].1 <= to
                    &&& chars@.subrange(bounds[k].0 as int, bounds[k].1 as int) == split(
                        chars@.subrange(from as int, i as int),
                        d,
                    )[k]
                },
        decreases to - i,
    {
        proof {
            lemma_split_push(chars@.subrange(from as int, i as int), chars@[i as int], d);
            assert(chars@.subrange(from as int, i as int).push(chars@[i as int])
                =~= chars@.subrange(from as int, i + 1));
            assert(chars@.subrange(start as int, i as int).push(chars@[i as int])
                =~= chars@.subrange(start as int, i + 1));
            assert(chars@.subrange(i + 1, i + 1) =~= Seq::<char>::empty());
        }
        if chars[i] == d {
            bounds.push((start, i));
            start = i + 1;
        }
        i += 1;
    }
    bounds.push((start, to));
    bounds
}

} // verus!
