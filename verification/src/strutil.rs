//! Splitting character strings on a separator, and moving between `&str`,
//! `Vec<char>` and `String`.

use vstd::prelude::*;
use vstd::string::*;

verus! {

/// Index of the first occurrence of `sep` in `s`, or `s.len()` if none.
pub open spec fn find_sep(s: Seq<char>, sep: char) -> int
    decreases s.len(),
{
    if s.len() == 0 {
        0
    } else if s[0] == sep {
        0
    } else {
        1 + find_sep(s.drop_first(), sep)
    }
}

pub proof fn lemma_find_sep_props(s: Seq<char>, sep: char)
    ensures
        0 <= find_sep(s, sep) <= s.len(),
        forall|j: int| 0 <= j < find_sep(s, sep) ==> s[j] != sep,
        find_sep(s, sep) < s.len() ==> s[find_sep(s, sep)] == sep,
    decreases s.len(),
{
    if s.len() > 0 && s[0] != sep {
        lemma_find_sep_props(s.drop_first(), sep);
        assert forall|j: int| 0 <= j < find_sep(s, sep) implies s[j] != sep by {
            if j > 0 {
                assert(s.drop_first()[j - 1] != sep);
            }
        }
    }
}

/// Any index with the first-occurrence property is `find_sep`.
pub proof fn lemma_find_sep_is(s: Seq<char>, sep: char, i: int)
    requires
        0 <= i <= s.len(),
        forall|j: int| 0 <= j < i ==> s[j] != sep,
        i < s.len() ==> s[i] == sep,
    ensures
        find_sep(s, sep) == i,
    decreases s.len(),
{
    if s.len() > 0 && s[0] != sep {
        let t = s.drop_first();
        assert forall|j: int| 0 <= j < i - 1 implies t[j] != sep by {
            assert(s[j + 1] != sep);
        }
        lemma_find_sep_is(t, sep, i - 1);
    }
}

/// The pieces of `s` between occurrences of `sep`, in order; an `s` without
/// `sep` is one piece, and every occurrence of `sep` adds a piece.
pub open spec fn split_on(s: Seq<char>, sep: char) -> Seq<Seq<char>>
    decreases s.len(),
    via split_on_decreases
{
    let i = find_sep(s, sep);
    if i == s.len() {
        seq![s]
    } else {
        seq![s.take(i)] + split_on(s.skip(i + 1), sep)
    }
}

#[via_fn]
proof fn split_on_decreases(s: Seq<char>, sep: char) {
    lemma_find_sep_props(s, sep);
}

pub proof fn lemma_split_on_len(s: Seq<char>, sep: char)
    ensures
        split_on(s, sep).len() >= 1,
    decreases s.len(),
{
    lemma_find_sep_props(s, sep);
}

/// How the split grows when one character is appended.
pub proof fn lemma_split_on_push(s: Seq<char>, c: char, sep: char)
    ensures
        c == sep ==> split_on(s.push(c), sep) == split_on(s, sep).push(Seq::<char>::empty()),
        c != sep ==> split_on(s.push(c), sep) == split_on(s, sep).update(
            split_on(s, sep).len() - 1,
            split_on(s, sep).last().push(c),
        ),
    decreases s.len(),
{
    lemma_find_sep_props(s, sep);
    lemma_split_on_len(s, sep);
    let i = find_sep(s, sep);
    let t = s.push(c);
    if i == s.len() {
        if c == sep {
            lemma_find_sep_is(t, sep, s.len() as int);
            assert(t.take(i) =~= s);
            assert(t.skip(i + 1) =~= Seq::<char>::empty());
            assert(find_sep(Seq::<char>::empty(), sep) == 0);
            assert(split_on(Seq::<char>::empty(), sep) == seq![Seq::<char>::empty()]);
            assert(split_on(t, sep) =~~= split_on(s, sep).push(Seq::<char>::empty()));
        } else {
            lemma_find_sep_is(t, sep, t.len() as int);
            assert(split_on(t, sep) == seq![t]);
            assert(split_on(t, sep) =~~= split_on(s, sep).update(0, s.push(c)));
        }
    } else {
        assert(t[i] == sep);
        lemma_find_sep_is(t, sep, i);
        let rest = s.skip(i + 1);
        assert(t.take(i) =~= s.take(i));
        assert(t.skip(i + 1) =~= rest.push(c));
        lemma_split_on_push(rest, c, sep);
        lemma_split_on_len(rest, sep);
        if c == sep {
            assert(split_on(t, sep) =~~= split_on(s, sep).push(Seq::<char>::empty()));
        } else {
            assert(split_on(rest.push(c), sep).last() == split_on(rest, sep).last().push(c));
            assert(split_on(s, sep).last() == split_on(rest, sep).last());
            assert(split_on(t, sep) =~~= split_on(s, sep).update(
                split_on(s, sep).len() - 1,
                split_on(s, sep).last().push(c),
            ));
        }
    }
}

/// The views of a sequence of character vectors.
pub open spec fn views_of(parts: Seq<Vec<char>>) -> Seq<Seq<char>> {
    Seq::new(parts.len(), |i: int| parts[i]@)
}

/// Splits `s` on `sep`; empty pieces are kept, as `str::split` keeps them.
pub fn split_chars(s: &Vec<char>, sep: char) -> (parts: Vec<Vec<char>>)
    ensures
        views_of(parts@) == split_on(s@, sep),
{
    let mut parts: Vec<Vec<char>> = Vec::new();
    let mut cur: Vec<char> = Vec::new();
    let mut i: usize = 0;
    proof {
        assert(find_sep(s@.take(0), sep) == 0);
        assert(split_on(s@.take(0), sep) =~~= views_of(parts@).push(cur@));
    }
    while i < s.len()
        invariant
            i <= s@.len(),
            split_on(s@.take(i as int), sep) == views_of(parts@).push(cur@),
        decreases s@.len() - i,
    {
        let c = s[i];
        proof {
            assert(s@.take(i + 1) =~= s@.take(i as int).push(s@[i as int]));
            lemma_split_on_push(s@.take(i as int), c, sep);
            lemma_split_on_len(s@.take(i as int), sep);
        }
        if c == sep {
            let ghost old_parts = parts@;
            let ghost old_cur = cur@;
            parts.push(cur);
            cur = Vec::new();
            proof {
                assert(views_of(parts@) =~~= views_of(old_parts).push(old_cur));
                assert(split_on(s@.take(i + 1), sep) =~~= views_of(parts@).push(cur@));
            }
        } else {
            let ghost old_cur = cur@;
            cur.push(c);
            proof {
                let prev = views_of(parts@).push(old_cur);
                assert(prev.last() == old_cur);
                assert(split_on(s@.take(i + 1), sep) =~~= views_of(parts@).push(cur@));
            }
        }
        i += 1;
    }
    proof {
        assert(s@.take(s@.len() as int) =~= s@);
    }
    parts.push(cur);
    proof {
        let ghost final_parts = parts@;
        assert(views_of(final_parts) =~~= split_on(s@, sep));
    }
    parts
}

/// The characters of `s`, in order.
pub fn str_to_chars(s: &str) -> (v: Vec<char>)
    ensures
        v@ == s@,
{
    let n = s.unicode_len();
    let mut v: Vec<char> = Vec::new();
    let mut i: usize = 0;
    while i < n
        invariant
            i <= n,
            n == s@.len(),
            v@ == s@.take(i as int),
        decreases n - i,
    {
        let c = s.get_char(i);
        v.push(c);
        proof {
            assert(s@.take(i + 1) =~= s@.take(i as int).push(s@[i as int]));
        }
        i += 1;
    }
    proof {
        assert(s@.take(s@.len() as int) =~= s@);
    }
    v
}

/// Character-wise equality of two string slices.
pub fn str_eq(a: &str, b: &str) -> (r: bool)
    ensures
        r == (a@ == b@),
{
    let na = a.unicode_len();
    let nb = b.unicode_len();
    if na != nb {
        return false;
    }
    let mut i: usize = 0;
    while i < na
        invariant
            i <= na,
            na == a@.len(),
            nb == b@.len(),
            na == nb,
            forall|j: int| 0 <= j < i ==> a@[j] == b@[j],
        decreases na - i,
    {
        if a.get_char(i) != b.get_char(i) {
            return false;
        }
        i += 1;
    }
    proof {
        assert(a@ =~= b@);
    }
    true
}

/// Relies on `String`'s `FromIterator` implementation: collecting the
/// characters of a slice yields the string of exactly those characters.
#[verifier::external_body]
pub(crate) fn chars_to_string(v: &Vec<char>) -> (s: String)
    ensures
        s@ == v@,
{
    v.iter().collect()
}

/// A separator-free string splits to itself alone.
pub proof fn lemma_split_on_whole(s: Seq<char>, sep: char)
    requires
        forall|j: int| 0 <= j < s.len() ==> s[j] != sep,
    ensures
        split_on(s, sep) == seq![s],
{
    lemma_find_sep_is(s, sep, s.len() as int);
}

/// Splitting peels off the first separator-free piece.
pub proof fn lemma_split_on_concat(a: Seq<char>, rest: Seq<char>, sep: char)
    requires
        forall|j: int| 0 <= j < a.len() ==> a[j] != sep,
    ensures
        split_on(a + seq![sep] + rest, sep) == seq![a] + split_on(rest, sep),
{
    let s = a + seq![sep] + rest;
    assert(s.len() == a.len() + 1 + rest.len());
    assert(forall|j: int| 0 <= j < a.len() ==> s[j] == a[j]);
    assert(s[a.len() as int] == sep);
    lemma_find_sep_is(s, sep, a.len() as int);
    assert(s.take(a.len() as int) =~= a);
    assert(s.skip(a.len() as int + 1) =~= rest);
}

} // verus!
