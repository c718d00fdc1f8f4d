//! Slots: the `{{name}}` placeholders of a template, where `name` is a run
//! of one or more Unicode word characters.

use vstd::prelude::*;
use crate::text::{
    chars_of, contains_text, occurs_at, replace_all, replace_chars, string_of,
    views,
};

verus! {

/// Whether a character outside ASCII is a Unicode word character (the class
/// `\w` of regular expressions: Alphabetic, Join_Control, Decimal_Number,
/// Mark and Connector_Punctuation).
pub uninterp spec fn unicode_word_char(c: char) -> bool;

/// The ASCII word characters: `[_0-9a-zA-Z]`.
pub open spec fn ascii_word_char(c: char) -> bool {
    c == '_' || ('0' <= c && c <= '9') || ('a' <= c && c <= 'z') || ('A' <= c && c <= 'Z')
}

/// The characters a slot name is made of: the Unicode word characters,
/// which among ASCII characters are `[_0-9a-zA-Z]`.
pub open spec fn word_char(c: char) -> bool {
    if (c as u32) < 128 {
        ascii_word_char(c)
    } else {
        unicode_word_char(c)
    }
}

/// Trusted: `regex_syntax::is_word_character` decides the Unicode word
/// class (it panics only without the crate's `unicode-perl` feature, which
/// its default features turn on). Its ASCII fast path answers by
/// `[_0-9a-zA-Z]`, and its table holds no other ASCII character.
#[verifier::external_body]
fn is_word_char(c: char) -> (b: bool)
    ensures
        (c as u32) < 128 ==> b == ascii_word_char(c),
        (c as u32) >= 128 ==> b == unicode_word_char(c),
{
    regex_syntax::is_word_character(c)
}

/// The placeholder text for a slot: `{{` + name + `}}`.
pub open spec fn tag(name: Seq<char>) -> Seq<char> {
    seq!['{', '{'] + name + seq!['}', '}']
}

/// The end of the run of word characters in `t` that starts at `k`.
pub open spec fn word_end(t: Seq<char>, k: int) -> int
    decreases t.len() - k,
{
    if 0 <= k < t.len() && word_char(t[k]) {
        word_end(t, k + 1)
    } else {
        k
    }
}

/// Where a placeholder `{{name}}` that starts at `i` ends (one past its last
/// character), if one starts there. The name is the longest run of word
/// characters after `{{`; it must be non-empty and be followed by `}}`.
pub open spec fn slot_end(t: Seq<char>, i: int) -> Option<int> {
    if 0 <= i && i + 1 < t.len() && t[i] == '{' && t[i + 1] == '{' {
        let j = word_end(t, i + 2);
        if j > i + 2 && j < t.len() && t.len() - j > 1 && t[j] == '}' && t[j + 1] == '}' {
            Some(j + 2)
        } else {
            None
        }
    } else {
        None
    }
}

/// The names of the placeholders found from position `i` on, scanning left
/// to right and resuming after each placeholder found.
pub open spec fn slot_names_from(t: Seq<char>, i: int) -> Seq<Seq<char>>
    decreases t.len() - i,
{
    if 0 <= i < t.len() {
        match slot_end(t, i) {
            Some(e) => seq![t.subrange(i + 2, e - 2)] + slot_names_from(t, e),
            None => slot_names_from(t, i + 1),
        }
    } else {
        Seq::empty()
    }
}

/// The names of all placeholders of `t`, in order, repeats included.
pub open spec fn slot_names(t: Seq<char>) -> Seq<Seq<char>> {
    slot_names_from(t, 0)
}

/// `s` without repeats: each element kept at its first occurrence.
pub open spec fn dedup(s: Seq<Seq<char>>) -> Seq<Seq<char>>
    decreases s.len(),
{
    if s.len() == 0 {
        s
    } else {
        let d = dedup(s.drop_last());
        if d.contains(s.last()) {
            d
        } else {
            d.push(s.last())
        }
    }
}

pub proof fn lemma_word_end_bounds(t: Seq<char>, k: int)
    requires
        0 <= k <= t.len(),
    ensures
        k <= word_end(t, k) <= t.len(),
        forall|m: int| k <= m < word_end(t, k) ==> word_char(#[trigger] t[m]),
        word_end(t, k) < t.len() ==> !word_char(t[word_end(t, k)]),
    decreases t.len() - k,
{
    if k < t.len() && word_char(t[k]) {
        lemma_word_end_bounds(t, k + 1);
    }
}

/// The end of the run of word characters that starts at `k`.
fn word_run_end(t: &Vec<char>, k: usize) -> (e: usize)
    requires
        k <= t.len(),
    ensures
        e as int == word_end(t@, k as int),
{
    let mut e = k;
    while e < t.len() && is_word_char(t[e])
        invariant
            k <= e <= t.len(),
            word_end(t@, k as int) == word_end(t@, e as int),
        decreases t.len() - e,
    {
        e += 1;
    }
    e
}

/// Where a placeholder that starts at `i` ends, if one starts there.
fn slot_end_at(t: &Vec<char>, i: usize) -> (r: Option<usize>)
    requires
        i < t.len(),
    ensures
        match r {
            Some(e) => slot_end(t@, i as int) == Some(e as int),
            None => slot_end(t@, i as int) is None,
        },
{
    if i + 1 < t.len() && t[i] == '{' && t[i + 1] == '{' {
        let j = word_run_end(t, i + 2);
        proof {
            lemma_word_end_bounds(t@, i + 2);
        }
        if j > i + 2 && j < t.len() && t.len() - j > 1 && t[j] == '}' && t[j + 1] == '}' {
            Some(j + 2)
        } else {
            None
        }
    } else {
        None
    }
}

/// The characters of `t` from `a` up to `b`.
fn sub_chars(t: &Vec<char>, a: usize, b: usize) -> (v: Vec<char>)
    requires
        a <= b <= t.len(),
    ensures
        v@ == t@.subrange(a as int, b as int),
{
    let mut v: Vec<char> = Vec::new();
    let mut k = a;
    while k < b
        invariant
            a <= k <= b <= t.len(),
            v@ == t@.subrange(a as int, k as int),
        decreases b - k,
    {
        v.push(t[k]);
        k += 1;
        assert(v@ =~= t@.subrange(a as int, k as int));
    }
    v
}

/// Whether `name` is among `names`.
fn contains_name(names: &Vec<String>, name: &String) -> (b: bool)
    ensures
        b == views(names@).contains(name@),
{
    let mut k: usize = 0;
    while k < names.len()
        invariant
            k <= names.len(),
            forall|m: int| 0 <= m < k ==> names@[m]@ != name@,
        decreases names.len() - k,
    {
        if names[k] == *name {
            assert(views(names@)[k as int] == name@);
            return true;
        }
        k += 1;
    }
    assert forall|m: int| 0 <= m < views(names@).len() implies views(names@)[m] != name@ by {
        assert(views(names@)[m] == names@[m]@);
    }
    false
}

/// The names of the slots of `template`, in the order of their first
/// occurrence, each once.
pub fn extract_slots(template: &str) -> (slots: Vec<String>)
    ensures
        views(slots@) == dedup(slot_names(template@)),
{
    let t = chars_of(template);
    extract_slot_chars(&t)
}

/// The names of the slots of the template `t`, in the order of their first
/// occurrence, each once.
pub(crate) fn extract_slot_chars(t: &Vec<char>) -> (slots: Vec<String>)
    ensures
        views(slots@) == dedup(slot_names(t@)),
{
    let mut names: Vec<String> = Vec::new();
    let ghost found: Seq<Seq<char>> = Seq::empty();
    let mut i: usize = 0;
    assert(views(names@) =~= dedup(found));
    while i < t.len()
        invariant
            i <= t.len(),
            slot_names(t@) == found + slot_names_from(t@, i as int),
            views(names@) == dedup(found),
        decreases t.len() - i,
    {
        match slot_end_at(t, i) {
            Some(e) => {
                let name = string_of(&sub_chars(t, i + 2, e - 2));
                let ghost old_names = names@;
                if !contains_name(&names, &name) {
                    names.push(name);
                    assert(views(names@) =~= views(old_names).push(name@));
                }
                proof {
                    assert(found.push(name@).drop_last() =~= found);
                    assert(found + slot_names_from(t@, i as int) =~= found.push(name@)
                        + slot_names_from(t@, e as int));
                    found = found.push(name@);
                }
                i = e;
            },
            None => {
                i += 1;
            },
        }
    }
    assert(found + slot_names_from(t@, i as int) =~= found);
    names
}

/// The placeholder text `{{slot}}` for a slot name.
pub(crate) fn slot_tag(slot: &str) -> (t: Vec<char>)
    ensures
        t@ == tag(slot@),
{
    let mut t: Vec<char> = Vec::new();
    t.push('{');
    t.push('{');
    let s = chars_of(slot);
    crate::text::push_all(&mut t, &s);
    t.push('}');
    t.push('}');
    assert(t@ =~= tag(slot@));
    t
}

/// `template` with every `{{slot}}` replaced by `content`, leftmost first and
/// without overlaps; `content` is inserted as it is.
pub fn fill_slot(template: &str, slot: &str, content: &str) -> (filled: String)
    ensures
        filled@ == replace_all(template@, tag(slot@), content@),
{
    let t = chars_of(template);
    let p = slot_tag(slot);
    let r = chars_of(content);
    string_of(&replace_chars(&t, &p, &r))
}


/// Each element of `dedup(s)` occurs once in it.
pub proof fn law_dedup_distinct(s: Seq<Seq<char>>)
    ensures
        dedup(s).no_duplicates(),
    decreases s.len(),
{
    if s.len() > 0 {
        law_dedup_distinct(s.drop_last());
    }
}

/// `dedup(s)` holds exactly the elements of `s`.
pub proof fn law_dedup_same_elements(s: Seq<Seq<char>>)
    ensures
        forall|x: Seq<char>| dedup(s).contains(x) <==> s.contains(x),
    decreases s.len(),
{
    if s.len() > 0 {
        let d = dedup(s.drop_last());
        law_dedup_same_elements(s.drop_last());
        assert forall|x: Seq<char>| dedup(s).contains(x) <==> s.contains(x) by {
            if s.contains(x) {
                let i = choose|i: int| 0 <= i < s.len() && s[i] == x;
                if i < s.len() - 1 {
                    assert(s.drop_last()[i] == x);
                }
            }
            if s.drop_last().contains(x) {
                let i = choose|i: int| 0 <= i < s.drop_last().len() && s.drop_last()[i] == x;
                assert(s[i] == x);
            }
            if !d.contains(s.last()) {
                assert(d.push(s.last())[d.len() as int] == s.last());
                if d.push(s.last()).contains(x) {
                    let i = choose|i: int| 0 <= i < d.push(s.last()).len() && d.push(s.last())[i] == x;
                    if i < d.len() {
                        assert(d[i] == x);
                    }
                }
                if d.contains(x) {
                    let i = choose|i: int| 0 <= i < d.len() && d[i] == x;
                    assert(d.push(s.last())[i] == x);
                }
            }
        }
    }
}

/// `x` occurs first in `s` at position `p`.
pub open spec fn first_occurrence(s: Seq<Seq<char>>, x: Seq<char>, p: int) -> bool {
    0 <= p < s.len() && s[p] == x && !s.take(p).contains(x)
}

/// `x` occurs in `s`, and so occurs first somewhere.
pub open spec fn occurs_first_somewhere(s: Seq<Seq<char>>, x: Seq<char>) -> bool {
    exists|p: int| first_occurrence(s, x, p)
}

proof fn lemma_first_occurrence_in_prefix(s: Seq<Seq<char>>, x: Seq<char>, p: int)
    requires
        s.len() > 0,
        s.drop_last().contains(x),
        first_occurrence(s, x, p),
    ensures
        p < s.len() - 1,
        first_occurrence(s.drop_last(), x, p),
{
    if p == s.len() - 1 {
        assert(s.take(p) =~= s.drop_last());
    }
    assert(s.take(p) =~= s.drop_last().take(p));
}

proof fn lemma_first_occurrence_unique(s: Seq<Seq<char>>, x: Seq<char>, p: int, q: int)
    requires
        first_occurrence(s, x, p),
        first_occurrence(s, x, q),
    ensures
        p == q,
{
    if p < q {
        assert(s.take(q)[p] == x);
    } else if q < p {
        assert(s.take(p)[q] == x);
    }
}

/// `dedup(s)` keeps the order of first occurrence: each of its elements
/// occurs first in `s` at some position, and earlier elements occur first
/// at earlier positions.
pub proof fn law_dedup_first_occurrence_order(s: Seq<Seq<char>>)
    ensures
        forall|k: int| 0 <= k < dedup(s).len() ==> occurs_first_somewhere(s, #[trigger] dedup(s)[k]),
        forall|k: int, j: int, p: int, q: int|
            0 <= k < j < dedup(s).len() && #[trigger] first_occurrence(s, dedup(s)[k], p)
                && #[trigger] first_occurrence(s, dedup(s)[j], q) ==> p < q,
    decreases s.len(),
{
    if s.len() > 0 {
        let s0 = s.drop_last();
        let d0 = dedup(s0);
        let d = dedup(s);
        law_dedup_first_occurrence_order(s0);
        law_dedup_same_elements(s0);
        assert forall|k: int| 0 <= k < d0.len() implies occurs_first_somewhere(s, #[trigger] d0[k]) by {
            let p = choose|p: int| first_occurrence(s0, d0[k], p);
            assert(s.take(p) =~= s0.take(p));
            assert(first_occurrence(s, d0[k], p));
        }
        assert forall|k: int| 0 <= k < d0.len() implies #[trigger] s0.contains(d0[k]) by {
            assert(d0.contains(d0[k]));
        }
        assert forall|k: int| 0 <= k < d.len() implies occurs_first_somewhere(s, #[trigger] d[k]) by {
            if k < d0.len() {
                assert(d[k] == d0[k]);
                let p = choose|p: int| first_occurrence(s0, d0[k], p);
                assert(s.take(p) =~= s0.take(p));
                assert(first_occurrence(s, d[k], p));
                assert(occurs_first_somewhere(s, d[k]));
            } else {
                assert(!d0.contains(s.last()));
                assert(!s0.contains(s.last()));
                assert(s.take(s.len() - 1) =~= s0);
                assert(d[k] == s.last());
                assert(first_occurrence(s, d[k], s.len() - 1));
                assert(occurs_first_somewhere(s, d[k]));
            }
        }
        assert forall|k: int, j: int, p: int, q: int|
            0 <= k < j < d.len() && #[trigger] first_occurrence(s, d[k], p)
                && #[trigger] first_occurrence(s, d[j], q) implies p < q by {
            assert(d[k] == d0[k]);
            assert(s0.contains(d0[k]));
            lemma_first_occurrence_in_prefix(s, d[k], p);
            if j < d0.len() {
                assert(d[j] == d0[j]);
                assert(s0.contains(d0[j]));
                lemma_first_occurrence_in_prefix(s, d[j], q);
            } else {
                assert(d[j] == s.last());
                lemma_first_occurrence_unique(s, d[j], q, s.len() - 1);
            }
        }
    }
}

/// The extracted slot names are distinct, and they are exactly the names of
/// the placeholders found in the template.
pub proof fn law_extracted_slots_distinct_and_complete(t: Seq<char>)
    ensures
        dedup(slot_names(t)).no_duplicates(),
        forall|x: Seq<char>| dedup(slot_names(t)).contains(x) <==> slot_names(t).contains(x),
{
    law_dedup_distinct(slot_names(t));
    law_dedup_same_elements(slot_names(t));
}

proof fn lemma_slot_names_from_well_formed(t: Seq<char>, i: int)
    requires
        0 <= i,
    ensures
        forall|n: Seq<char>|
            #[trigger] slot_names_from(t, i).contains(n) ==> {
                &&& n.len() > 0
                &&& forall|k: int| 0 <= k < n.len() ==> word_char(#[trigger] n[k])
                &&& contains_text(t, tag(n))
            },
    decreases t.len() - i,
{
    if 0 <= i < t.len() {
        match slot_end(t, i) {
            Some(e) => {
                lemma_slot_names_from_well_formed(t, e);
                lemma_word_end_bounds(t, i + 2);
                let name = t.subrange(i + 2, e - 2);
                assert(t.subrange(i, i + tag(name).len()) =~= tag(name));
                assert(occurs_at(t, tag(name), i));
                let rest = slot_names_from(t, e);
                assert forall|n: Seq<char>| #[trigger]
                    slot_names_from(t, i).contains(n) implies rest.contains(n) || n == name by {
                    let k = choose|k: int|
                        0 <= k < slot_names_from(t, i).len() && slot_names_from(t, i)[k] == n;
                    if k > 0 {
                        assert(rest[k - 1] == n);
                    }
                }
                assert forall|k: int| 0 <= k < name.len() implies word_char(#[trigger] name[k]) by {
                    assert(name[k] == t[i + 2 + k]);
                }
                assert(contains_text(t, tag(name)));
            },
            None => {
                lemma_slot_names_from_well_formed(t, i + 1);
                assert(slot_names_from(t, i) == slot_names_from(t, i + 1));
            },
        }
    }
}

/// Every name found in a template is a non-empty run of word characters,
/// and its placeholder `{{name}}` occurs in the template.
pub proof fn law_found_names_are_placeholders(t: Seq<char>)
    ensures
        forall|n: Seq<char>|
            #[trigger] slot_names(t).contains(n) ==> {
                &&& n.len() > 0
                &&& forall|k: int| 0 <= k < n.len() ==> word_char(#[trigger] n[k])
                &&& contains_text(t, tag(n))
            },
{
    lemma_slot_names_from_well_formed(t, 0);
}

proof fn lemma_no_slot_inside_slot(t: Seq<char>, i: int, j: int)
    requires
        slot_end(t, i) matches Some(e) && i < j < e,
    ensures
        slot_end(t, j) is None,
{
    let w = word_end(t, i + 2);
    lemma_word_end_bounds(t, i + 2);
    assert(!word_char('{'));
    if j == i + 1 {
        assert(word_char(t[i + 2]));
    } else if j < w {
        assert(word_char(t[j]));
    } else if j == w {
    } else {
        assert(j == w + 1);
    }
}

proof fn lemma_slot_names_from_complete(t: Seq<char>, i: int, j: int)
    requires
        0 <= i <= j,
        slot_end(t, j) is Some,
    ensures
        slot_names_from(t, i).contains(t.subrange(j + 2, slot_end(t, j)->0 - 2)),
    decreases t.len() - i,
{
    let name = t.subrange(j + 2, slot_end(t, j)->0 - 2);
    match slot_end(t, i) {
        Some(e) => {
            let rest = slot_names_from(t, e);
            if j == i {
                assert(slot_names_from(t, i)[0] == name);
            } else if j < e {
                lemma_no_slot_inside_slot(t, i, j);
            } else {
                lemma_slot_names_from_complete(t, e, j);
                let k = choose|k: int| 0 <= k < rest.len() && rest[k] == name;
                assert(slot_names_from(t, i)[k + 1] == name);
            }
        },
        None => {
            lemma_slot_names_from_complete(t, i + 1, j);
        },
    }
}

/// Every placeholder of a template is found: wherever `{{name}}` starts,
/// with `name` the longest run of word characters there, `name` is among
/// the slot names of the template.
pub proof fn law_every_placeholder_is_found(t: Seq<char>, j: int)
    requires
        slot_end(t, j) is Some,
    ensures
        slot_names(t).contains(t.subrange(j + 2, slot_end(t, j)->0 - 2)),
{
    lemma_slot_names_from_complete(t, 0, j);
}


proof fn lemma_word_end_shift(p: Seq<char>, s: Seq<char>, k: int)
    requires
        0 <= k <= s.len(),
    ensures
        word_end(p + s, p.len() + k) == p.len() + word_end(s, k),
    decreases s.len() - k,
{
    if k < s.len() {
        assert((p + s)[p.len() + k] == s[k]);
        lemma_word_end_shift(p, s, k + 1);
    }
}

proof fn lemma_slot_end_shift(p: Seq<char>, s: Seq<char>, k: int)
    requires
        0 <= k <= s.len(),
    ensures
        slot_end(p + s, p.len() + k) == match slot_end(s, k) {
            Some(e) => Some(p.len() + e),
            None => None::<int>,
        },
{
    let t = p + s;
    let i = p.len() + k;
    if k + 1 < s.len() {
        assert(t[i] == s[k]);
        assert(t[i + 1] == s[k + 1]);
        lemma_word_end_shift(p, s, k + 2);
        lemma_word_end_bounds(s, k + 2);
        let j = word_end(s, k + 2);
        if j + 1 < s.len() {
            assert(t[p.len() + j] == s[j]);
            assert(t[p.len() + j + 1] == s[j + 1]);
        }
    }
}

/// The scan of `p + s` from inside `s` finds what the scan of `s` finds.
proof fn lemma_slot_names_shift(p: Seq<char>, s: Seq<char>, k: int)
    requires
        0 <= k <= s.len(),
    ensures
        slot_names_from(p + s, p.len() + k) == slot_names_from(s, k),
    decreases s.len() - k,
{
    if k < s.len() {
        lemma_slot_end_shift(p, s, k);
        match slot_end(s, k) {
            Some(e) => {
                lemma_word_end_bounds(s, k + 2);
                lemma_slot_names_shift(p, s, e);
                assert((p + s).subrange(p.len() + k + 2, p.len() + e - 2) =~= s.subrange(
                    k + 2,
                    e - 2,
                ));
            },
            None => {
                lemma_slot_names_shift(p, s, k + 1);
            },
        }
    }
}

proof fn lemma_word_end_prefix(a: Seq<char>, s: Seq<char>, k: int)
    requires
        0 <= k <= a.len(),
    ensures
        word_end(a + s, k) == if word_end(a, k) < a.len() {
            word_end(a, k)
        } else {
            word_end(a + s, a.len() as int)
        },
    decreases a.len() - k,
{
    if k < a.len() {
        assert((a + s)[k] == a[k]);
        lemma_word_end_prefix(a, s, k + 1);
    }
}

/// No placeholder of `a + s` starts in `a` at or after `i` and ends past `a`.
pub open spec fn no_slot_across(a: Seq<char>, s: Seq<char>, i: int) -> bool {
    forall|q: int|
        i <= q < a.len() ==> match #[trigger] slot_end(a + s, q) {
            Some(e) => e <= a.len(),
            None => true,
        }
}

proof fn lemma_slot_end_prefix(a: Seq<char>, s: Seq<char>, q: int)
    requires
        0 <= q < a.len(),
        match slot_end(a + s, q) {
            Some(e) => e <= a.len(),
            None => true,
        },
    ensures
        slot_end(a + s, q) == slot_end(a, q),
{
    let t = a + s;
    lemma_word_end_bounds(a, 0);
    if q + 2 <= a.len() {
        lemma_word_end_prefix(a, s, q + 2);
        lemma_word_end_bounds(a, q + 2);
        lemma_word_end_bounds(t, a.len() as int);
        lemma_word_end_bounds(t, q + 2);
    }
    match slot_end(a, q) {
        Some(e) => {
            let j = word_end(a, q + 2);
            assert(t[q] == a[q] && t[q + 1] == a[q + 1]);
            assert(t[j] == a[j] && t[j + 1] == a[j + 1]);
        },
        None => {
            match slot_end(t, q) {
                Some(e) => {
                    let j = word_end(t, q + 2);
                    assert(j + 2 <= a.len());
                    assert(t[q] == a[q] && t[q + 1] == a[q + 1]);
                    assert(t[j] == a[j] && t[j + 1] == a[j + 1]);
                },
                None => {},
            }
        },
    }
}

proof fn lemma_slot_names_prefix(a: Seq<char>, s: Seq<char>, i: int)
    requires
        0 <= i <= a.len(),
        no_slot_across(a, s, i),
    ensures
        slot_names_from(a + s, i) == slot_names_from(a, i) + slot_names_from(a + s, a.len() as int),
    decreases a.len() - i,
{
    let t = a + s;
    if i < a.len() {
        lemma_slot_end_prefix(a, s, i);
        match slot_end(a, i) {
            Some(e) => {
                lemma_slot_names_prefix(a, s, e);
                assert(t.subrange(i + 2, e - 2) =~= a.subrange(i + 2, e - 2));
                assert(slot_names_from(t, i) =~= slot_names_from(a, i) + slot_names_from(
                    t,
                    a.len() as int,
                ));
            },
            None => {
                lemma_slot_names_prefix(a, s, i + 1);
            },
        }
    } else {
        assert(slot_names_from(a, i) =~= Seq::<Seq<char>>::empty());
        assert(slot_names_from(t, i) =~= Seq::<Seq<char>>::empty() + slot_names_from(t, i));
    }
}

/// Placeholders never span a character that is neither a brace nor a word
/// character: the slot names of `a`, such a character, and `b` are those of
/// `a` followed by those of `b`.
pub proof fn law_slot_names_of_separated_concatenation(a: Seq<char>, c: char, b: Seq<char>)
    requires
        !word_char(c),
        c != '{',
        c != '}',
    ensures
        slot_names(a + seq![c] + b) == slot_names(a) + slot_names(b),
{
    let s = seq![c] + b;
    assert(a + seq![c] + b =~= a + s);
    assert forall|q: int| 0 <= q < a.len() implies match #[trigger] slot_end(a + s, q) {
        Some(e) => e <= a.len(),
        None => true,
    } by {
        let t = a + s;
        assert(t[a.len() as int] == c);
        if let Some(e) = slot_end(t, q) {
            if e > a.len() {
                let j = word_end(t, q + 2);
                lemma_word_end_bounds(t, q + 2);
                if a.len() < j {
                    assert(word_char(t[a.len() as int]));
                }
            }
        }
    }
    lemma_slot_names_prefix(a, s, 0);
    lemma_slot_names_shift(a, s, 0);
    assert(a.len() + 0 == a.len());
    assert(slot_end(s, 0) is None);
    lemma_slot_names_shift(seq![c], b, 0);
    assert(slot_names_from(s, 0) == slot_names_from(s, 1));
}

proof fn lemma_dedup_contains_concat(x: Seq<Seq<char>>, y: Seq<Seq<char>>, n: Seq<char>)
    ensures
        dedup(x + y).contains(n) <==> dedup(x).contains(n) || dedup(y).contains(n),
{
    law_dedup_same_elements(x + y);
    law_dedup_same_elements(x);
    law_dedup_same_elements(y);
    if (x + y).contains(n) {
        let i = choose|i: int| 0 <= i < (x + y).len() && (x + y)[i] == n;
        if i < x.len() {
            assert(x[i] == n);
        } else {
            assert(y[i - x.len()] == n);
        }
    }
    if x.contains(n) {
        let i = choose|i: int| 0 <= i < x.len() && x[i] == n;
        assert((x + y)[i] == n);
    }
    if y.contains(n) {
        let i = choose|i: int| 0 <= i < y.len() && y[i] == n;
        assert((x + y)[x.len() + i] == n);
    }
}

/// Removing repeats from `x` followed by `y` keeps the names of `x`, then
/// the new names of `y` in the order of their first occurrence in `y`.
pub proof fn law_dedup_of_concatenation(x: Seq<Seq<char>>, y: Seq<Seq<char>>)
    ensures
        dedup(x + y) == dedup(x) + dedup(y).filter(|n: Seq<char>| !dedup(x).contains(n)),
    decreases y.len(),
{
    let dx = dedup(x);
    let p = |n: Seq<char>| !dx.contains(n);
    if y.len() == 0 {
        assert(x + y =~= x);
        reveal_with_fuel(Seq::filter, 1);
        assert(dx + dedup(y).filter(p) =~= dx);
    } else {
        let y0 = y.drop_last();
        let l = y.last();
        law_dedup_of_concatenation(x, y0);
        assert((x + y).drop_last() =~= x + y0);
        assert((x + y).last() == l);
        let d = dedup(x + y0);
        let e = dedup(y0);
        lemma_dedup_contains_concat(x, y0, l);
        e.lemma_filter_push(l, p);
        if e.contains(l) {
            assert(dedup(y) == e);
        } else {
            assert(dedup(y) == e.push(l));
            if !dx.contains(l) {
                assert(dx + e.filter(p).push(l) =~= (dx + e.filter(p)).push(l));
            }
        }
    }
}

/// The slots extracted from `a`, a separating character, and `b` are the
/// slots of `a`, then those of `b` that are not among them, in their order.
pub proof fn law_extract_slots_of_separated_concatenation(a: Seq<char>, c: char, b: Seq<char>)
    requires
        !word_char(c),
        c != '{',
        c != '}',
    ensures
        dedup(slot_names(a + seq![c] + b)) == dedup(slot_names(a)) + dedup(slot_names(b)).filter(
            |n: Seq<char>| !dedup(slot_names(a)).contains(n),
        ),
{
    law_slot_names_of_separated_concatenation(a, c, b);
    law_dedup_of_concatenation(slot_names(a), slot_names(b));
}

/// The placeholders `{{w}}` of the names `ws`, one after another.
pub open spec fn placeholders(ws: Seq<Seq<char>>) -> Seq<char>
    decreases ws.len(),
{
    if ws.len() == 0 {
        Seq::empty()
    } else {
        tag(ws[0]) + placeholders(ws.drop_first())
    }
}

/// `n` is a possible slot name: a non-empty run of word characters.
pub open spec fn slot_name(n: Seq<char>) -> bool {
    n.len() > 0 && forall|k: int| 0 <= k < n.len() ==> word_char(#[trigger] n[k])
}

proof fn lemma_word_end_of_run(t: Seq<char>, k: int, m: int)
    requires
        0 <= k <= m <= t.len(),
        forall|q: int| k <= q < m ==> word_char(#[trigger] t[q]),
        m == t.len() || !word_char(t[m]),
    ensures
        word_end(t, k) == m,
    decreases m - k,
{
    if k < m {
        lemma_word_end_of_run(t, k + 1, m);
    }
}

proof fn lemma_slot_names_of_placeholders(ws: Seq<Seq<char>>)
    requires
        forall|i: int| 0 <= i < ws.len() ==> slot_name(#[trigger] ws[i]),
    ensures
        slot_names(placeholders(ws)) == ws,
    decreases ws.len(),
{
    if ws.len() == 0 {
        assert(slot_names(placeholders(ws)) =~= ws);
    } else {
        let w = ws[0];
        let rest = ws.drop_first();
        assert forall|i: int| 0 <= i < rest.len() implies slot_name(#[trigger] rest[i]) by {
            assert(rest[i] == ws[i + 1]);
        }
        lemma_slot_names_of_placeholders(rest);
        let r = placeholders(rest);
        let t = tag(w) + r;
        assert(slot_name(w));
        assert forall|q: int| 2 <= q < 2 + w.len() implies word_char(#[trigger] t[q]) by {
            assert(t[q] == w[q - 2]);
        }
        assert(t[2 + w.len() as int] == '}');
        assert(!word_char('}'));
        lemma_word_end_of_run(t, 2, 2 + w.len() as int);
        assert(slot_end(t, 0) == Some(w.len() + 4 as int));
        assert(t.subrange(2, w.len() + 2 as int) =~= w);
        lemma_slot_names_shift(tag(w), r, 0);
        assert(tag(w).len() + 0 == w.len() + 4);
        assert(slot_names(t) =~= seq![w] + rest);
        assert(seq![w] + rest =~= ws);
    }
}

proof fn lemma_dedup_of_distinct(ws: Seq<Seq<char>>)
    requires
        ws.no_duplicates(),
    ensures
        dedup(ws) == ws,
    decreases ws.len(),
{
    if ws.len() > 0 {
        let w0 = ws.drop_last();
        assert(w0.no_duplicates());
        lemma_dedup_of_distinct(w0);
        if w0.contains(ws.last()) {
            let i = choose|i: int| 0 <= i < w0.len() && w0[i] == ws.last();
            assert(ws[i] == ws[ws.len() - 1]);
        }
        assert(w0.push(ws.last()) =~= ws);
    }
}

/// Distinct slot names written out as placeholders are extracted back,
/// in their order.
pub proof fn law_extract_slots_of_placeholders(ws: Seq<Seq<char>>)
    requires
        ws.no_duplicates(),
        forall|i: int| 0 <= i < ws.len() ==> slot_name(#[trigger] ws[i]),
    ensures
        dedup(slot_names(placeholders(ws))) == ws,
{
    lemma_slot_names_of_placeholders(ws);
    lemma_dedup_of_distinct(ws);
}

} // verus!
