//! Text values used by the IR: interned names (`SmolStr`) and the few
//! string operations of the standard library that the IR relies on.

use vstd::prelude::*;
use smol_str::SmolStr;

verus! {

/// The name of a register or other storage location.
pub type Name = SmolStr;

#[verifier::external_type_specification]
#[verifier::external_body]
pub struct ExSmolStr(SmolStr);

/// The characters that a `SmolStr` holds.
pub uninterp spec fn name_chars(s: SmolStr) -> Seq<char>;

/// `SmolStr::new`: the new value holds exactly the characters of `text`.
#[verifier::external_body]
pub(crate) fn name_new(text: &str) -> (res: SmolStr)
    ensures
        name_chars(res) == text@,
{
    SmolStr::new(text)
}

/// `SmolStr::as_str`: a borrowed view of the same characters.
#[verifier::external_body]
pub(crate) fn name_as_str(s: &SmolStr) -> (res: &str)
    ensures
        res@ == name_chars(*s),
{
    s.as_str()
}

/// `<SmolStr as Clone>::clone`: the copy holds the same characters.
#[verifier::external_body]
pub(crate) fn name_clone(s: &SmolStr) -> (res: SmolStr)
    ensures
        name_chars(res) == name_chars(*s),
{
    s.clone()
}

/// `<SmolStr as PartialEq<str>>::eq`: compares the characters with `other`.
#[verifier::external_body]
pub(crate) fn name_eq_str(s: &SmolStr, other: &str) -> (res: bool)
    ensures
        res == (name_chars(*s) == other@),
{
    *s == *other
}

/// `<SmolStr as PartialEq>::eq`: compares the characters of both names.
#[verifier::external_body]
pub(crate) fn name_eq(a: &SmolStr, b: &SmolStr) -> (res: bool)
    ensures
        res == (name_chars(*a) == name_chars(*b)),
{
    *a == *b
}

/// Character-wise equality of two strings.
pub(crate) fn str_eq(a: &str, b: &str) -> (res: bool)
    ensures
        res == (a@ == b@),
{
    let a1 = a.to_owned();
    let b1 = b.to_owned();
    a1 == b1
}

/// What `<str as Debug>::fmt` writes for a string: the quoted and escaped text.
pub uninterp spec fn debug_quoted(s: Seq<char>) -> Seq<char>;

/// `<str as Debug>::fmt`, written into a new `String`.
#[verifier::external_body]
pub(crate) fn debug_quote(s: &str) -> (res: String)
    ensures
        res@ == debug_quoted(s@),
{
    format!("{:?}", s)
}

} // verus!
