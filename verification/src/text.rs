//! Text as sequences of characters: conversion, ordering and searching.

use vstd::prelude::*;
use vstd::std_specs::iter::IteratorSpec;

verus! {

/// The characters of `s`, in order.
pub fn chars_of(s: &str) -> (r: Vec<char>)
    ensures
        r@ == s@,
{
    let mut out: Vec<char> = Vec::new();
    let mut it = s.chars();
    loop
        invariant
            out@ + it.remaining() == s@,
            it.obeys_prophetic_iter_laws(),
            it.decrease() is Some,
        decreases it.decrease()->0,
    {
        match it.next() {
            Some(c) => {
                out.push(c);
            },
            None => {
                return out;
            },
        }
    }
}

/// `a` and `b` hold the same characters in their first `k` places.
pub open spec fn agree_before(a: Seq<char>, b: Seq<char>, k: int) -> bool {
    &&& 0 <= k <= a.len()
    &&& k <= b.len()
    &&& forall|j: int| 0 <= j < k ==> a[j] == b[j]
}

/// `a` sorts before `b` at place `k`: up to there they agree, and there `a`
/// ends while `b` goes on, or `a` has the character with the smaller code point.
pub open spec fn before_at(a: Seq<char>, b: Seq<char>, k: int) -> bool {
    &&& agree_before(a, b, k)
    &&& k < b.len()
    &&& k < a.len() ==> (a[k] as int) < (b[k] as int)
}

/// The order of texts: `a` sorts before `b` where, at the first place at
/// which they differ, `a` ends or has the character with the smaller code
/// point.
pub open spec fn text_before(a: Seq<char>, b: Seq<char>) -> bool {
    exists|k: int| before_at(a, b, k)
}

/// No text sorts before itself.
pub proof fn lemma_text_before_irreflexive(a: Seq<char>)
    ensures
        !text_before(a, a),
{
}

/// The order of texts is transitive.
pub proof fn lemma_text_before_transitive(a: Seq<char>, b: Seq<char>, c: Seq<char>)
    requires
        text_before(a, b),
        text_before(b, c),
    ensures
        text_before(a, c),
{
    let k1 = choose|k: int| before_at(a, b, k);
    let k2 = choose|k: int| before_at(b, c, k);
    let k = if k1 <= k2 { k1 } else { k2 };
    assert(before_at(a, c, k));
}

/// Of two different texts one sorts before the other.
pub proof fn lemma_text_before_total(a: Seq<char>, b: Seq<char>)
    ensures
        text_before(a, b) || text_before(b, a) || a == b,
{
    if !(a =~= b) {
        lemma_first_difference(a, b, 0);
    }
}

proof fn lemma_first_difference(a: Seq<char>, b: Seq<char>, k: int)
    requires
        agree_before(a, b, k),
        a != b,
    ensures
        text_before(a, b) || text_before(b, a),
    decreases a.len() - k,
{
    if k == a.len() {
        if k == b.len() {
            assert(a =~= b);
        } else {
            assert(before_at(a, b, k));
        }
    } else if k == b.len() {
        assert(before_at(b, a, k));
    } else if a[k] == b[k] {
        lemma_first_difference(a, b, k + 1);
    } else if (a[k] as int) < (b[k] as int) {
        assert(before_at(a, b, k));
    } else {
        assert(before_at(b, a, k));
    }
}

/// Whether `a` sorts before `b`.
pub fn precedes(a: &str, b: &str) -> (r: bool)
    ensures
        r == text_before(a@, b@),
{
    let mut ia = a.chars();
    let mut ib = b.chars();
    let ghost mut k: int = 0;
    loop
        invariant
            agree_before(a@, b@, k),
            ia.remaining() == a@.skip(k),
            ib.remaining() == b@.skip(k),
            ia.obeys_prophetic_iter_laws(),
            ib.obeys_prophetic_iter_laws(),
            ia.decrease() is Some,
        decreases ia.decrease()->0,
    {
        let ca = ia.next();
        let cb = ib.next();
        match cb {
            None => {
                proof {
                    lemma_no_place_but(a@, b@, k);
                }
                return false;
            },
            Some(y) => {
                match ca {
                    None => {
                        assert(before_at(a@, b@, k));
                        return true;
                    },
                    Some(x) => {
                        if x != y {
                            proof {
                                lemma_no_place_but(a@, b@, k);
                            }
                            assert((x as int) < (y as int) ==> before_at(a@, b@, k));
                            return x < y;
                        }
                        proof {
                            assert(a@.skip(k).drop_first() =~= a@.skip(k + 1));
                            assert(b@.skip(k).drop_first() =~= b@.skip(k + 1));
                            k = k + 1;
                        }
                    },
                }
            },
        }
    }
}

/// Where two texts agree up to `k` and do not both go on there with one
/// character, `k` is the only place at which one can sort before the other.
proof fn lemma_no_place_but(a: Seq<char>, b: Seq<char>, k: int)
    requires
        agree_before(a, b, k),
        k == a.len() || k == b.len() || a[k] != b[k],
    ensures
        forall|j: int| before_at(a, b, j) ==> j == k,
{
    assert forall|j: int| before_at(a, b, j) implies j == k by {
        if j < k {
            assert(a[j] == b[j]);
        }
    }
}

/// Whether `a` and `b` hold the same characters.
pub fn same_text(a: &str, b: &str) -> (r: bool)
    ensures
        r == (a@ == b@),
{
    let mut ia = a.chars();
    let mut ib = b.chars();
    let ghost mut k: int = 0;
    loop
        invariant
            agree_before(a@, b@, k),
            ia.remaining() == a@.skip(k),
            ib.remaining() == b@.skip(k),
            ia.obeys_prophetic_iter_laws(),
            ib.obeys_prophetic_iter_laws(),
            ia.decrease() is Some,
        decreases ia.decrease()->0,
    {
        let ca = ia.next();
        let cb = ib.next();
        match (ca, cb) {
            (None, None) => {
                assert(a@ =~= b@);
                return true;
            },
            (Some(x), Some(y)) => {
                if x != y {
                    return false;
                }
                proof {
                    assert(a@.skip(k).drop_first() =~= a@.skip(k + 1));
                    assert(b@.skip(k).drop_first() =~= b@.skip(k + 1));
                    k = k + 1;
                }
            },
            _ => {
                return false;
            },
        }
    }
}

/// `needle` stands in `hay` from place `i` on.
pub open spec fn occurs_at(hay: Seq<char>, needle: Seq<char>, i: int) -> bool {
    &&& 0 <= i
    &&& i + needle.len() <= hay.len()
    &&& forall|j: int| 0 <= j < needle.len() ==> hay[i + j] == needle[j]
}

/// `needle` stands somewhere in `hay`.
pub open spec fn contains_text(hay: Seq<char>, needle: Seq<char>) -> bool {
    exists|i: int| occurs_at(hay, needle, i)
}

/// Whether `needle` stands in `hay` from place `i` on.
fn occurs_here(hay: &Vec<char>, needle: &Vec<char>, i: usize) -> (r: bool)
    requires
        i + needle.len() <= hay.len(),
    ensures
        r == occurs_at(hay@, needle@, i as int),
{
    let mut j: usize = 0;
    while j < needle.len()
        invariant
            j <= needle.len(),
            i + needle.len() <= hay.len(),
            forall|m: int| 0 <= m < j ==> hay[i + m] == needle[m],
        decreases needle.len() - j,
    {
        if hay[i + j] != needle[j] {
            return false;
        }
        j += 1;
    }
    true
}

/// Whether `needle` stands somewhere in `hay`.
pub fn contains(hay: &str, needle: &str) -> (r: bool)
    ensures
        r == contains_text(hay@, needle@),
{
    let h = chars_of(hay);
    let n = chars_of(needle);
    if n.len() > h.len() {
        return false;
    }
    let last: usize = h.len() - n.len();
    let mut i: usize = 0;
    while i <= last
        invariant
            i <= last + 1,
            last == h.len() - n.len(),
            n.len() <= h.len(),
            h@ == hay@,
            n@ == needle@,
            forall|m: int| 0 <= m < i ==> !occurs_at(hay@, needle@, m),
        decreases last + 1 - i,
    {
        if occurs_here(&h, &n, i) {
            return true;
        }
        i += 1;
    }
    false
}

/// The code point of `c`, an ASCII capital letter taken as its small letter.
pub open spec fn folded(c: char) -> int {
    if 'A' <= c <= 'Z' {
        (c as int) + 32
    } else {
        c as int
    }
}

/// `needle` stands in `hay` from place `i` on, ASCII letters taken without
/// their case.
pub open spec fn occurs_folded_at(hay: Seq<char>, needle: Seq<char>, i: int) -> bool {
    &&& 0 <= i
    &&& i + needle.len() <= hay.len()
    &&& forall|j: int| 0 <= j < needle.len() ==> folded(hay[i + j]) == folded(needle[j])
}

/// `needle` stands somewhere in `hay`, ASCII letters taken without their
/// case. Every other character stands for itself alone.
pub open spec fn contains_folded(hay: Seq<char>, needle: Seq<char>) -> bool {
    exists|i: int| occurs_folded_at(hay, needle, i)
}

/// Whether `a` and `b` are one character, ASCII letters taken without their
/// case.
pub fn same_folded(a: char, b: char) -> (r: bool)
    ensures
        r == (folded(a) == folded(b)),
{
    if a == b {
        true
    } else if 'A' <= a && a <= 'Z' {
        (a as u32) + 32 == (b as u32)
    } else if 'A' <= b && b <= 'Z' {
        (b as u32) + 32 == (a as u32)
    } else {
        false
    }
}

/// Whether `needle` stands in `hay` from place `i` on, ASCII letters taken
/// without their case.
fn occurs_folded_here(hay: &Vec<char>, needle: &Vec<char>, i: usize) -> (r: bool)
    requires
        i + needle.len() <= hay.len(),
    ensures
        r == occurs_folded_at(hay@, needle@, i as int),
{
    let mut j: usize = 0;
    while j < needle.len()
        invariant
            j <= needle.len(),
            i + needle.len() <= hay.len(),
            forall|m: int| 0 <= m < j ==> folded(hay[i + m]) == folded(needle[m]),
        decreases needle.len() - j,
    {
        if !same_folded(hay[i + j], needle[j]) {
            return false;
        }
        j += 1;
    }
    true
}

/// Whether `needle`, given by its characters, stands somewhere in `hay`,
/// ASCII letters taken without their case.
pub fn contains_ignoring_case(hay: &str, needle: &Vec<char>) -> (r: bool)
    ensures
        r == contains_folded(hay@, needle@),
{
    let h = chars_of(hay);
    if needle.len() > h.len() {
        return false;
    }
    let last: usize = h.len() - needle.len();
    let mut i: usize = 0;
    while i <= last
        invariant
            i <= last + 1,
            last == h.len() - needle.len(),
            needle.len() <= h.len(),
            h@ == hay@,
            forall|m: int| 0 <= m < i ==> !occurs_folded_at(hay@, needle@, m),
        decreases last + 1 - i,
    {
        if occurs_folded_here(&h, needle, i) {
            return true;
        }
        i += 1;
    }
    false
}

/// `hay` ends with `suffix`.
pub open spec fn ends_with_text(hay: Seq<char>, suffix: Seq<char>) -> bool {
    &&& suffix.len() <= hay.len()
    &&& hay.subrange(hay.len() - suffix.len(), hay.len() as int) == suffix
}

/// Whether `hay` ends with `suffix`.
pub fn ends_with(hay: &str, suffix: &str) -> (r: bool)
    ensures
        r == ends_with_text(hay@, suffix@),
{
    let h = chars_of(hay);
    let n = chars_of(suffix);
    if n.len() > h.len() {
        return false;
    }
    let start: usize = h.len() - n.len();
    let r = occurs_here(&h, &n, start);
    proof {
        let tail = hay@.subrange(hay@.len() - suffix@.len(), hay@.len() as int);
        if r {
            assert(tail =~= suffix@);
        } else {
            if tail == suffix@ {
                assert forall|j: int| 0 <= j < suffix@.len() implies hay@[start + j]
                    == suffix@[j] by {
                    assert(tail[j] == hay@[start + j]);
                }
            }
        }
    }
    r
}

/// Whether `a` holds the characters of `b`.
pub fn same_chars(a: &Vec<char>, b: &str) -> (r: bool)
    ensures
        r == (a@ == b@),
{
    let other = chars_of(b);
    if a.len() != other.len() {
        return false;
    }
    let mut i: usize = 0;
    while i < a.len()
        invariant
            i <= a.len(),
            a.len() == other.len(),
            other@ == b@,
            forall|j: int| 0 <= j < i ==> a[j] == other[j],
        decreases a.len() - i,
    {
        if a[i] != other[i] {
            assert(a@[i as int] != b@[i as int]);
            return false;
        }
        i += 1;
    }
    assert(a@ =~= other@);
    true
}

/// The pieces of `s` between its slashes, in order: one more than it has
/// slashes, and empty where two slashes meet or `s` begins or ends with one.
pub open spec fn segments(s: Seq<char>) -> Seq<Seq<char>>
    decreases s.len(),
{
    if s.len() == 0 {
        seq![Seq::empty()]
    } else {
        let before = segments(s.drop_last());
        if s.last() == '/' {
            before.push(Seq::empty())
        } else {
            before.drop_last().push(before.last().push(s.last()))
        }
    }
}

/// No piece holds a slash.
pub proof fn lemma_segments_hold_no_slash(s: Seq<char>)
    ensures
        segments(s).len() >= 1,
        forall|i: int, j: int|
            0 <= i < segments(s).len() && 0 <= j < segments(s)[i].len() ==> segments(s)[i][j]
                != '/',
    decreases s.len(),
{
    if s.len() > 0 {
        lemma_segments_hold_no_slash(s.drop_last());
    }
}

/// The pieces of `pieces` in one text, with a slash between each two.
pub open spec fn joined(pieces: Seq<Seq<char>>) -> Seq<char>
    decreases pieces.len(),
{
    if pieces.len() == 0 {
        Seq::empty()
    } else if pieces.len() == 1 {
        pieces[0]
    } else {
        joined(pieces.drop_last()) + seq!['/'] + pieces.last()
    }
}

/// The pieces of a text, joined again, are the text.
pub proof fn lemma_segments_join(s: Seq<char>)
    ensures
        joined(segments(s)) == s,
    decreases s.len(),
{
    lemma_segments_hold_no_slash(s);
    if s.len() == 0 {
        assert(joined(segments(s)) =~= s);
    } else {
        let before = segments(s.drop_last());
        lemma_segments_hold_no_slash(s.drop_last());
        lemma_segments_join(s.drop_last());
        if s.last() == '/' {
            assert(before.push(Seq::empty()).drop_last() =~= before);
            assert(joined(segments(s)) =~= s.drop_last() + seq!['/']);
            assert(s.drop_last() + seq!['/'] =~= s);
        } else {
            let grown = before.last().push(s.last());
            let pieces = before.drop_last().push(grown);
            if before.len() == 1 {
                assert(joined(pieces) =~= joined(before).push(s.last()));
            } else {
                assert(pieces.drop_last() =~= before.drop_last());
                assert(joined(pieces) =~= (joined(before.drop_last()) + seq!['/']
                    + before.last()).push(s.last()));
            }
            assert(s.drop_last().push(s.last()) =~= s);
        }
    }
}

/// The pieces of `s` between its slashes, in order.
pub fn split_segments(s: &str) -> (r: Vec<Vec<char>>)
    ensures
        r.len() == segments(s@).len(),
        forall|i: int| 0 <= i < r.len() ==> (#[trigger] r[i])@ == segments(s@)[i],
{
    let cs = chars_of(s);
    let mut parts: Vec<Vec<char>> = Vec::new();
    let mut piece: Vec<char> = Vec::new();
    let mut i: usize = 0;
    proof {
        assert(cs@.take(0) =~= Seq::<char>::empty());
    }
    while i < cs.len()
        invariant
            i <= cs.len(),
            segments(cs@.take(i as int)).len() == parts.len() + 1,
            forall|j: int|
                0 <= j < parts.len() ==> (#[trigger] parts[j])@ == segments(cs@.take(i as int))[j],
            piece@ == segments(cs@.take(i as int)).last(),
        decreases cs.len() - i,
    {
        let c = cs[i];
        proof {
            assert(cs@.take(i + 1).drop_last() =~= cs@.take(i as int));
            assert(cs@.take(i + 1).last() == c);
        }
        if c == '/' {
            parts.push(piece);
            piece = Vec::new();
        } else {
            piece.push(c);
        }
        i += 1;
    }
    proof {
        assert(cs@.take(cs.len() as int) =~= cs@);
    }
    parts.push(piece);
    parts
}

/// The text `s` in lower case.
pub uninterp spec fn lowercase(s: Seq<char>) -> Seq<char>;

/// `str::to_lowercase`: the text in lower case, as Unicode defines it.
#[verifier::external_body]
pub(crate) fn to_lowercase(s: &str) -> (r: String)
    ensures
        r@ == lowercase(s@),
{
    s.to_lowercase()
}

} // verus!
