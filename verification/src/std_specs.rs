//! What the library takes on trust about functions of the standard library
//! for which the verifier's own library has no specification.
//!
//! Nothing here is proved. Each contract restates what the documentation of
//! the function promises.

use vstd::prelude::*;

verus! {

/// `<[T]>::split_first` hands out the first element of a slice and the slice
/// of all the others, or nothing for the empty slice.
pub assume_specification<Elem>[ <[Elem]>::split_first ](slice: &[Elem]) -> (parts: Option<(&Elem, &[Elem])>)
    ensures
        match parts {
            Some((first, rest)) => slice@.len() > 0 && *first == slice@[0] && rest@
                == slice@.drop_first(),
            None => slice@.len() == 0,
        },
;

/// `<[T]>::swap` exchanges the elements at two positions of a slice and
/// leaves the others where they are. It panics on a position outside the
/// slice, which `requires` leaves out.
pub assume_specification<Elem>[ <[Elem]>::swap ](slice: &mut [Elem], a: usize, b: usize)
    requires
        a < old(slice)@.len(),
        b < old(slice)@.len(),
    ensures
        final(slice)@ == old(slice)@.update(a as int, old(slice)@[b as int]).update(
            b as int,
            old(slice)@[a as int],
        ),
;

/// `core::mem::replace` moves `src` into `dest` and hands out what `dest`
/// held before.
pub assume_specification<Elem>[ core::mem::replace::<Elem> ](dest: &mut Elem, src: Elem) -> (held: Elem)
    ensures
        *final(dest) == src,
        held == *old(dest),
;

/// `<String as PartialEq<&str>>::eq`, the `==` between a `String` and a
/// `&str`, compares the two texts character by character.
pub assume_specification<'a>[ <String as PartialEq<&str>>::eq ](
    text: &String,
    other: &&str,
) -> (same: bool)
    ensures
        same == (text@ == other@),
;

/// `char::from_u32` gives the character with the code point `i`, where `i`
/// is a code point of a character: a number up to 0x10FFFF outside the
/// range of the surrogates.
pub assume_specification[ char::from_u32 ](i: u32) -> (ch: Option<char>)
    ensures
        ch == (if i <= 0x10FFFF && !(0xD800 <= i <= 0xDFFF) {
            Some(i as char)
        } else {
            None
        }),
;

/// `String::push` appends one character to a text.
pub assume_specification[ String::push ](text: &mut String, ch: char)
    ensures
        final(text)@ == old(text)@.push(ch),
;

/// `String::pop` takes the last character off a text and hands it out, or
/// hands out nothing where the text is empty.
pub assume_specification[ String::pop ](text: &mut String) -> (last: Option<char>)
    ensures
        match last {
            Some(ch) => old(text)@.len() > 0 && ch == old(text)@.last() && final(text)@ == old(text)@.drop_last(),
            None => old(text)@.len() == 0 && final(text)@ == old(text)@,
        },
;

/// `String::push_str` appends a text to a text.
pub assume_specification[ String::push_str ](text: &mut String, other: &str)
    ensures
        final(text)@ == old(text)@ + other@,
;

} // verus!
