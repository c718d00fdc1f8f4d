//! Character-sequence model of the text operations that prompt assembly uses:
//! occurrence of a pattern, leftmost non-overlapping replacement, and joining.

use vstd::prelude::*;

verus! {

/// `p` occurs in `t` starting at position `i`.
pub open spec fn occurs_at(t: Seq<char>, p: Seq<char>, i: int) -> bool {
    0 <= i && i + p.len() <= t.len() && t.subrange(i, i + p.len()) == p
}

/// `p` occurs somewhere in `t`.
pub open spec fn contains_text(t: Seq<char>, p: Seq<char>) -> bool {
    exists|i: int| #[trigger] occurs_at(t, p, i)
}

/// The text from position `i` on, with every occurrence of the non-empty
/// pattern `p` replaced by `r`, scanning left to right without overlaps.
pub open spec fn replace_from(t: Seq<char>, p: Seq<char>, r: Seq<char>, i: int) -> Seq<char>
    decreases t.len() - i,
{
    if 0 <= i < t.len() && p.len() > 0 {
        if occurs_at(t, p, i) {
            r + replace_from(t, p, r, i + p.len())
        } else {
            seq![t[i]] + replace_from(t, p, r, i + 1)
        }
    } else {
        Seq::empty()
    }
}

/// `t` with every occurrence of `p` replaced by `r`, leftmost first and
/// without overlaps; an empty pattern leaves `t` as it is.
pub open spec fn replace_all(t: Seq<char>, p: Seq<char>, r: Seq<char>) -> Seq<char> {
    if p.len() == 0 {
        t
    } else {
        replace_from(t, p, r, 0)
    }
}

/// The parts, in order, with `sep` between each two neighbours.
pub open spec fn join(parts: Seq<Seq<char>>, sep: Seq<char>) -> Seq<char>
    decreases parts.len(),
{
    if parts.len() == 0 {
        Seq::empty()
    } else if parts.len() == 1 {
        parts[0]
    } else {
        join(parts.drop_last(), sep) + sep + parts.last()
    }
}

/// The views of a sequence of strings.
pub open spec fn views(v: Seq<String>) -> Seq<Seq<char>> {
    v.map_values(|s: String| s@)
}

/// The characters of `s`, in order.
pub(crate) fn chars_of(s: &str) -> (v: Vec<char>)
    ensures
        v@ == s@,
{
    let mut v: Vec<char> = Vec::new();
    for c in it: s.chars()
        invariant
            v@ == it.seq().take(it.index() as int),
    {
        v.push(c);
    }
    v
}


proof fn lemma_replace_from_identity(t: Seq<char>, p: Seq<char>, r: Seq<char>, i: int)
    requires
        0 <= i <= t.len(),
        p.len() > 0,
        !contains_text(t, p) || r == p,
    ensures
        replace_from(t, p, r, i) == t.subrange(i, t.len() as int),
    decreases t.len() - i,
{
    if i < t.len() {
        if occurs_at(t, p, i) {
            lemma_replace_from_identity(t, p, r, i + p.len());
            assert(t.subrange(i, t.len() as int) =~= t.subrange(i, i + p.len()) + t.subrange(
                i + p.len(),
                t.len() as int,
            ));
        } else {
            lemma_replace_from_identity(t, p, r, i + 1);
            assert(t.subrange(i, t.len() as int) =~= seq![t[i]] + t.subrange(i + 1, t.len() as int));
        }
    } else {
        assert(t.subrange(i, t.len() as int) =~= Seq::<char>::empty());
    }
}

/// Replacing a pattern that does not occur leaves the text as it is.
pub proof fn law_replace_absent_is_identity(t: Seq<char>, p: Seq<char>, r: Seq<char>)
    requires
        !contains_text(t, p),
    ensures
        replace_all(t, p, r) == t,
{
    if p.len() > 0 {
        lemma_replace_from_identity(t, p, r, 0);
        assert(t.subrange(0, t.len() as int) =~= t);
    }
}

/// Replacing a pattern by itself leaves the text as it is.
pub proof fn law_replace_by_itself_is_identity(t: Seq<char>, p: Seq<char>)
    ensures
        replace_all(t, p, p) == t,
{
    if p.len() > 0 {
        lemma_replace_from_identity(t, p, p, 0);
        assert(t.subrange(0, t.len() as int) =~= t);
    }
}

proof fn lemma_replace_from_shift(q: Seq<char>, s: Seq<char>, p: Seq<char>, r: Seq<char>, k: int)
    requires
        0 <= k <= s.len(),
    ensures
        replace_from(q + s, p, r, q.len() + k) == replace_from(s, p, r, k),
    decreases s.len() - k,
{
    let t = q + s;
    if k < s.len() && p.len() > 0 {
        assert(t[q.len() + k] == s[k]);
        if k + p.len() <= s.len() {
            assert(t.subrange(q.len() + k, q.len() + k + p.len()) =~= s.subrange(k, k + p.len()));
        }
        assert(occurs_at(t, p, q.len() + k) == occurs_at(s, p, k));
        if occurs_at(s, p, k) {
            lemma_replace_from_shift(q, s, p, r, k + p.len());
        } else {
            lemma_replace_from_shift(q, s, p, r, k + 1);
        }
    }
}

/// Replacing in an empty text gives an empty text.
pub proof fn law_replace_in_empty(p: Seq<char>, r: Seq<char>)
    ensures
        replace_all(Seq::empty(), p, r) == Seq::<char>::empty(),
{
}

/// A text that starts with the (non-empty) pattern has that occurrence
/// replaced by `r`, whatever `r` is (the empty text too), and replacement
/// goes on after it.
pub proof fn law_replace_at_match(p: Seq<char>, s: Seq<char>, r: Seq<char>)
    requires
        p.len() > 0,
    ensures
        replace_all(p + s, p, r) == r + replace_all(s, p, r),
{
    let t = p + s;
    assert(t.subrange(0, p.len() as int) =~= p);
    assert(occurs_at(t, p, 0));
    lemma_replace_from_shift(p, s, p, r, 0);
    assert(p.len() + 0 == p.len());
}

/// A text that does not start with the pattern keeps its first character,
/// and replacement goes on after it.
pub proof fn law_replace_past_non_match(c: char, s: Seq<char>, p: Seq<char>, r: Seq<char>)
    requires
        p.len() > 0,
        !occurs_at(seq![c] + s, p, 0),
    ensures
        replace_all(seq![c] + s, p, r) == seq![c] + replace_all(s, p, r),
{
    let t = seq![c] + s;
    assert(t[0] == c);
    lemma_replace_from_shift(seq![c], s, p, r, 0);
    assert(seq![c].len() + 0 == 1);
}

/// Joining no parts gives the empty text, and one part gives that part.
pub proof fn law_join_empty_and_single(x: Seq<char>, sep: Seq<char>)
    ensures
        join(Seq::empty(), sep) == Seq::<char>::empty(),
        join(seq![x], sep) == x,
{
}

/// Every further part comes after the separator: joining `parts` and then
/// `x` is the join of `parts`, the separator, and `x`.
pub proof fn law_join_push(parts: Seq<Seq<char>>, x: Seq<char>, sep: Seq<char>)
    requires
        parts.len() >= 1,
    ensures
        join(parts.push(x), sep) == join(parts, sep) + sep + x,
{
    assert(parts.push(x).drop_last() =~= parts);
    assert(parts.push(x).last() == x);
}

/// Builds a `String` from characters.
///
/// Trusted: `FromIterator<&char> for String` (std) appends the characters in
/// the order the iterator yields them.
#[verifier::external_body]
pub(crate) fn string_of(cs: &Vec<char>) -> (s: String)
    ensures
        s@ == cs@,
{
    String::from_iter(cs)
}

/// Appends all of `src` to `out`.
pub(crate) fn push_all(out: &mut Vec<char>, src: &Vec<char>)
    ensures
        final(out)@ == old(out)@ + src@,
{
    let mut j: usize = 0;
    while j < src.len()
        invariant
            j <= src.len(),
            out@ == old(out)@ + src@.take(j as int),
        decreases src.len() - j,
    {
        out.push(src[j]);
        j += 1;
        assert(src@.take(j as int) == src@.take(j - 1) + seq![src@[j - 1]]);
    }
    assert(src@.take(src.len() as int) == src@);
}

/// Whether `p` occurs in `t` at position `i`.
pub(crate) fn matches_at(t: &Vec<char>, p: &Vec<char>, i: usize) -> (b: bool)
    ensures
        b == occurs_at(t@, p@, i as int),
{
    if i > t.len() || p.len() > t.len() - i {
        return false;
    }
    let mut j: usize = 0;
    while j < p.len()
        invariant
            i + p.len() <= t.len(),
            j <= p.len(),
            forall|k: int| 0 <= k < j ==> t@[i + k] == p@[k],
        decreases p.len() - j,
    {
        if t[i + j] != p[j] {
            assert(t@.subrange(i as int, i + p.len())[j as int] != p@[j as int]);
            return false;
        }
        j += 1;
    }
    assert(t@.subrange(i as int, i + p.len()) =~= p@);
    true
}

/// Whether `p` occurs anywhere in `t`.
pub(crate) fn contains_chars(t: &Vec<char>, p: &Vec<char>) -> (b: bool)
    ensures
        b == contains_text(t@, p@),
{
    let mut i: usize = 0;
    while i < t.len()
        invariant
            i <= t.len(),
            forall|k: int| 0 <= k < i ==> !occurs_at(t@, p@, k),
        decreases t.len() - i,
    {
        if matches_at(t, p, i) {
            return true;
        }
        i += 1;
    }
    if matches_at(t, p, i) {
        return true;
    }
    assert forall|k: int| !occurs_at(t@, p@, k) by {
        if 0 <= k < t.len() {
        } else if k == t.len() {
        } else {
        }
    }
    false
}

/// `t` with every occurrence of the non-empty pattern `p` replaced by `r`,
/// leftmost first and without overlaps.
pub(crate) fn replace_chars(t: &Vec<char>, p: &Vec<char>, r: &Vec<char>) -> (out: Vec<char>)
    requires
        p.len() > 0,
    ensures
        out@ == replace_all(t@, p@, r@),
{
    let mut out: Vec<char> = Vec::new();
    let mut i: usize = 0;
    while i < t.len()
        invariant
            i <= t.len(),
            p.len() > 0,
            replace_all(t@, p@, r@) == out@ + replace_from(t@, p@, r@, i as int),
        decreases t.len() - i,
    {
        let ghost before = out@;
        if matches_at(t, p, i) {
            push_all(&mut out, r);
            i += p.len();
            assert(before + (r@ + replace_from(t@, p@, r@, i as int)) =~= out@ + replace_from(
                t@,
                p@,
                r@,
                i as int,
            ));
        } else {
            out.push(t[i]);
            i += 1;
            assert(before + (seq![t@[i - 1]] + replace_from(t@, p@, r@, i as int)) =~= out@
                + replace_from(t@, p@, r@, i as int));
        }
    }
    assert(out@ + replace_from(t@, p@, r@, i as int) =~= out@);
    out
}

/// The parts, in order, with `sep` between each two neighbours.
pub(crate) fn join_chars(parts: &Vec<Vec<char>>, sep: &Vec<char>) -> (out: Vec<char>)
    ensures
        out@ == join(parts@.map_values(|v: Vec<char>| v@), sep@),
{
    let ghost pv = parts@.map_values(|v: Vec<char>| v@);
    let mut out: Vec<char> = Vec::new();
    let mut i: usize = 0;
    while i < parts.len()
        invariant
            i <= parts.len(),
            pv == parts@.map_values(|v: Vec<char>| v@),
            out@ == join(pv.take(i as int), sep@),
        decreases parts.len() - i,
    {
        if i > 0 {
            push_all(&mut out, sep);
        }
        push_all(&mut out, &parts[i]);
        i += 1;
        assert(pv.take(i as int).drop_last() =~= pv.take(i - 1));
        assert(pv.take(i as int).last() == parts@[i - 1]@);
    }
    assert(pv.take(parts.len() as int) =~= pv);
    out
}

} // verus!
