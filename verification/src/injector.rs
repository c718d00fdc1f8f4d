//! Creating injectors: a slot name must hold something besides white space.

use vstd::prelude::*;
use crate::text::chars_of;
use crate::types::Injector;

verus! {

/// Why an injector could not be created.
#[derive(Debug, PartialEq, Eq, Structural)]
pub enum InjectorError {
    /// The slot name is empty or white space only.
    EmptySlot,
}

impl InjectorError {
    /// The message that describes the error.
    pub fn message(&self) -> (m: String)
        ensures
            m@ == error_message(*self),
    {
        match self {
            InjectorError::EmptySlot => {
                let m = "slot must be a non-empty string".to_owned();
                proof {
                    reveal_strlit("slot must be a non-empty string");
                }
                m
            },
        }
    }
}

/// The message of each error.
pub open spec fn error_message(e: InjectorError) -> Seq<char> {
    match e {
        InjectorError::EmptySlot => "slot must be a non-empty string"@,
    }
}

/// Whether `c` has the Unicode `White_Space` property (PropList.txt): the
/// controls U+0009..U+000D, the space, U+0085, U+00A0, U+1680,
/// U+2000..U+200A, U+2028, U+2029, U+202F, U+205F and U+3000.
pub open spec fn white_space(c: char) -> bool {
    ('\u{9}' <= c && c <= '\u{D}') || c == ' ' || c == '\u{85}' || c == '\u{A0}' || c
        == '\u{1680}' || ('\u{2000}' <= c && c <= '\u{200A}') || c == '\u{2028}' || c
        == '\u{2029}' || c == '\u{202F}' || c == '\u{205F}' || c == '\u{3000}'
}

/// Trusted: `char::is_whitespace` (std) tells whether a character has the
/// Unicode `White_Space` property, the set that `white_space` lists.
#[verifier::external_body]
fn is_white_space(c: char) -> (b: bool)
    ensures
        b == white_space(c),
{
    c.is_whitespace()
}

/// The name holds nothing but white space (or nothing at all): what is left
/// of it after trimming white space from both ends is empty.
pub open spec fn blank(s: Seq<char>) -> bool {
    forall|i: int| 0 <= i < s.len() ==> white_space(#[trigger] s[i])
}

/// The empty name is blank, and a name stays blank when a character is
/// added exactly when that character is white space.
pub proof fn law_blank_by_characters(s: Seq<char>, c: char)
    ensures
        blank(Seq::empty()),
        blank(s.push(c)) <==> blank(s) && white_space(c),
{
    if blank(s.push(c)) {
        assert(s.push(c)[s.len() as int] == c);
        assert forall|i: int| 0 <= i < s.len() implies white_space(#[trigger] s[i]) by {
            assert(s.push(c)[i] == s[i]);
        }
    }
    if blank(s) && white_space(c) {
        assert forall|i: int| 0 <= i < s.push(c).len() implies white_space(#[trigger] s.push(c)[i]) by {
            if i < s.len() {
                assert(s.push(c)[i] == s[i]);
            }
        }
    }
}

/// Whether `s` is blank.
pub fn is_blank(s: &str) -> (b: bool)
    ensures
        b == blank(s@),
{
    let cs = chars_of(s);
    let mut i: usize = 0;
    while i < cs.len()
        invariant
            i <= cs.len(),
            cs@ == s@,
            forall|k: int| 0 <= k < i ==> white_space(#[trigger] cs@[k]),
        decreases cs.len() - i,
    {
        if !is_white_space(cs[i]) {
            return false;
        }
        i += 1;
    }
    true
}

/// An injector for `slot` that runs `fn_`; refused when the slot name is
/// blank.
pub fn create_injector<F>(slot: &str, fn_: F) -> (r: Result<Injector<F>, InjectorError>)
    ensures
        r is Err <==> blank(slot@),
        r matches Err(e) ==> e == InjectorError::EmptySlot,
        r matches Ok(inj) ==> inj.slot@ == slot@ && inj.fn_ == fn_,
{
    if is_blank(slot) {
        return Err(InjectorError::EmptySlot);
    }
    Ok(Injector { slot: slot.to_owned(), fn_ })
}

} // verus!
