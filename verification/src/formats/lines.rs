use vstd::prelude::*;

verus! {

/// Position of the first `c` in `s`, or the length of `s` when there is none.
pub open spec fn find_first(s: Seq<u8>, c: u8) -> nat
    decreases s.len(),
{
    if s.len() == 0 {
        0
    } else if s[0] == c {
        0
    } else {
        1 + find_first(s.drop_first(), c)
    }
}

pub proof fn lemma_find_first(s: Seq<u8>, c: u8)
    ensures
        find_first(s, c) <= s.len(),
        find_first(s, c) < s.len() ==> s[find_first(s, c) as int] == c,
        forall|j: int| 0 <= j < find_first(s, c) ==> s[j] != c,
    decreases s.len(),
{
    if s.len() > 0 && s[0] != c {
        lemma_find_first(s.drop_first(), c);
        assert forall|j: int| 0 <= j < find_first(s, c) implies s[j] != c by {
            if j > 0 {
                assert(s[j] == s.drop_first()[j - 1]);
            }
        }
    }
}

/// When no `c` occurs in `a`, the first `c` of `a + b` is the first `c` of `b`,
/// shifted by the length of `a`.
pub proof fn lemma_find_first_append(a: Seq<u8>, b: Seq<u8>, c: u8)
    requires
        forall|j: int| 0 <= j < a.len() ==> a[j] != c,
    ensures
        find_first(a + b, c) == a.len() + find_first(b, c),
    decreases a.len(),
{
    if a.len() > 0 {
        assert((a + b).drop_first() =~= a.drop_first() + b);
        lemma_find_first_append(a.drop_first(), b, c);
    } else {
        assert(a + b =~= b);
    }
}

/// Finds the first `c` in `s` at or after `start`; gives the length of `s`
/// when there is none.
pub fn find_from(s: &[u8], start: usize, c: u8) -> (r: usize)
    requires
        start <= s@.len(),
    ensures
        r == start + find_first(s@.subrange(start as int, s@.len() as int), c),
        r <= s@.len(),
{
    let mut i = start;
    while i < s.len()
        invariant
            start <= i <= s@.len(),
            find_first(s@.subrange(start as int, s@.len() as int), c) == (i - start) + find_first(
                s@.subrange(i as int, s@.len() as int),
                c,
            ),
        decreases s.len() - i,
    {
        if s[i] == c {
            return i;
        }
        assert(s@.subrange(i as int, s@.len() as int).drop_first() =~= s@.subrange(
            i + 1,
            s@.len() as int,
        ));
        i = i + 1;
    }
    i
}

/// `l` without one trailing carriage return.
pub open spec fn strip_cr(l: Seq<u8>) -> Seq<u8> {
    if l.len() > 0 && l.last() == 13u8 {
        l.drop_last()
    } else {
        l
    }
}

/// The first line of `s` and what follows it, as `BufRead::lines` splits
/// text: a line ends at a newline, which is dropped together with one
/// carriage return before it; the last line may lack the newline, and then
/// keeps a trailing carriage return.
pub open spec fn split_line(s: Seq<u8>) -> (Seq<u8>, Seq<u8>) {
    let e = find_first(s, 10u8) as int;
    if e < s.len() {
        (strip_cr(s.take(e)), s.skip(e + 1))
    } else {
        (s, Seq::empty())
    }
}

/// The bounds of the first line of `s.skip(start)`: where its text ends in
/// `s`, and where the following text starts.
pub fn line_bounds(s: &[u8], start: usize) -> (r: (usize, usize))
    requires
        start < s@.len(),
    ensures
        start <= r.0 <= s@.len(),
        start < r.1 <= s@.len(),
        s@.subrange(start as int, r.0 as int) == split_line(s@.skip(start as int)).0,
        s@.skip(r.1 as int) == split_line(s@.skip(start as int)).1,
{
    let ghost rest = s@.skip(start as int);
    assert(rest =~= s@.subrange(start as int, s@.len() as int));
    let e = find_from(s, start, 10u8);
    proof {
        lemma_find_first(rest, 10u8);
    }
    if e < s.len() {
        assert(s@.subrange(start as int, e as int) =~= rest.take(e - start));
        assert(s@.skip(e + 1) =~= rest.skip(e - start + 1));
        if e > start && s[e - 1] == 13u8 {
            assert(s@.subrange(start as int, e - 1) =~= rest.take(e - start).drop_last());
            (e - 1, e + 1)
        } else {
            (e, e + 1)
        }
    } else {
        assert(s@.subrange(start as int, e as int) =~= rest);
        assert(s@.skip(e as int) =~= Seq::<u8>::empty());
        (e, e)
    }
}

} // verus!
