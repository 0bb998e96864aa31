//! Readable names for the symbols of functions.

use symbolic_common::Name;
use symbolic_demangle::{Demangle, DemangleOptions};
use vstd::prelude::*;
use vstd::string::StrSliceExecFns;

verus! {

/// The readable form that the demangler gives for a symbol, reduced to the
/// name; nothing where it does not know the symbol's language or cannot
/// read the symbol.
pub uninterp spec fn demangled(name: Seq<char>) -> Option<Seq<char>>;

/// The characters of an optional string.
pub open spec fn text_of(text: Option<String>) -> Option<Seq<char>> {
    match text {
        Some(s) => Some(s@),
        None => None,
    }
}

/// Whether the symbol looks like one of the Microsoft compiler: it starts
/// with `?` or with `@?`.
pub open spec fn msvc_like(name: Seq<char>) -> bool {
    ||| name.len() >= 1 && name[0] == '?'
    ||| name.len() >= 2 && name[0] == '@' && name[1] == '?'
}

/// What is made of a symbol: nothing where it looks like one of the
/// Microsoft compiler, what the demangler gives otherwise.
pub open spec fn readable(name: Seq<char>) -> Option<Seq<char>> {
    if msvc_like(name) {
        None
    } else {
        demangled(name)
    }
}

/// Calls `symbolic_demangle::Demangle::demangle` on the symbol, with
/// `DemangleOptions::name_only()`. The call reads nothing but the symbol, so
/// its result is a function of the symbol: the contract gives that function
/// the name `demangled` and claims nothing else of it.
///
/// Symbols that start with `?` or `@?` are left out. The demangler hands
/// those, and no others, to `msvc_demangler`, which adds up the digits of a
/// number without a guard and can overflow on them.
#[verifier::external_body]
fn demangle_symbol(name: &str) -> (readable: Option<String>)
    requires
        !msvc_like(name@),
    ensures
        text_of(readable) == demangled(name@),
{
    Name::from(name).demangle(DemangleOptions::name_only())
}

/// The name a method is shown under: the readable form of the function's
/// symbol where one was asked for and found, else the symbol as it is.
pub open spec fn display_name(
    name: Seq<char>,
    demangle: bool,
    readable: Option<Seq<char>>,
) -> Seq<char> {
    if demangle {
        match readable {
            Some(r) => r,
            None => name,
        }
    } else {
        name
    }
}

/// Chooses between a symbol and what the demangler made of it.
pub fn choose_name(name: &String, demangle: bool, readable: Option<String>) -> (shown: String)
    ensures
        shown@ == display_name(name@, demangle, text_of(readable)),
{
    if demangle {
        match readable {
            Some(r) => r,
            None => name.clone(),
        }
    } else {
        name.clone()
    }
}

/// Tells whether the symbol looks like one of the Microsoft compiler.
pub fn is_msvc_like(name: &str) -> (like: bool)
    ensures
        like == msvc_like(name@),
{
    let len = name.unicode_len();
    if len >= 1 && name.get_char(0) == '?' {
        true
    } else {
        len >= 2 && name.get_char(0) == '@' && name.get_char(1) == '?'
    }
}

/// The name to show for the function with the given symbol. The demangler
/// is asked only where `demangle` is set, and not for a symbol that looks
/// like one of the Microsoft compiler: such a symbol is shown as it is.
pub fn method_name(name: &String, demangle: bool) -> (shown: String)
    ensures
        shown@ == display_name(name@, demangle, readable(name@)),
{
    if demangle && !is_msvc_like(name.as_str()) {
        let found = demangle_symbol(name.as_str());
        choose_name(name, demangle, found)
    } else {
        name.clone()
    }
}

} // verus!
