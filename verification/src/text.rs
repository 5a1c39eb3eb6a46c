//! Text helpers shared by the modules that build and read strings.

use vstd::prelude::*;
use vstd::std_specs::iter::IteratorSpec;
use vstd::utf8::{decode_utf8, valid_utf8};

verus! {

/// `String::push` appends one character to the text.
pub assume_specification[ String::push ](s: &mut String, c: char)
    ensures
        final(s)@ == old(s)@.push(c),
;

/// `core::str::from_utf8` accepts exactly the byte sequences that are
/// UTF-8, and reads them as the text that they encode.
#[verifier::external_body]
pub(crate) fn text_from_utf8(bytes: &[u8]) -> (r: Option<String>)
    ensures
        match r {
            Some(s) => valid_utf8(bytes@) && s@ == decode_utf8(bytes@),
            None => !valid_utf8(bytes@),
        },
{
    match core::str::from_utf8(bytes) {
        Ok(s) => Some(s.to_owned()),
        Err(_) => None,
    }
}

/// The characters of a text, in order.
pub fn chars_of(text: &str) -> (v: Vec<char>)
    ensures
        v@ == text@,
{
    broadcast use vstd::string::group_string_axioms;

    let mut v: Vec<char> = Vec::new();
    let mut it = text.chars();
    proof {
        assert(v@ + it.remaining() =~= text@);
    }
    loop
        invariant
            v@ + it.remaining() == text@,
            it.obeys_prophetic_iter_laws(),
            it.decrease() is Some,
        decreases it.decrease()->0,
    {
        let ghost before = v@;
        let ghost rest = it.remaining();
        match it.next() {
            Some(c) => {
                v.push(c);
                proof {
                    assert(v@ + it.remaining() =~= before + rest);
                }
            },
            None => {
                proof {
                    assert(v@ + rest =~= v@);
                }
                return v;
            },
        }
    }
}

/// The text that holds the characters of `chars`.
pub fn text_of(chars: &Vec<char>) -> (s: String)
    ensures
        s@ == chars@,
{
    let mut s = String::new();
    let n = chars.len();
    let mut i: usize = 0;
    while i < n
        invariant
            i <= n,
            n == chars.len(),
            s@ == chars@.take(i as int),
        decreases n - i,
    {
        s.push(chars[i]);
        proof {
            assert(chars@.take(i as int + 1) =~= chars@.take(i as int).push(chars@[i as int]));
        }
        i += 1;
    }
    proof {
        assert(chars@.take(n as int) =~= chars@);
    }
    s
}

/// The text that `str::to_uppercase` makes of a text.
pub uninterp spec fn uppercase_of(text: Seq<char>) -> Seq<char>;

/// `str::to_uppercase` gives the upper-case form of a text; the contract
/// names that form and says no more of it.
#[verifier::external_body]
pub(crate) fn to_uppercase(text: &str) -> (r: String)
    ensures
        r@ == uppercase_of(text@),
{
    text.to_uppercase()
}

/// The text that `str::to_lowercase` makes of a text.
pub uninterp spec fn lowercase_of(text: Seq<char>) -> Seq<char>;

/// `str::to_lowercase` gives the lower-case form of a text; the contract
/// names that form and says no more of it.
#[verifier::external_body]
pub(crate) fn to_lowercase(text: &str) -> (r: String)
    ensures
        r@ == lowercase_of(text@),
{
    text.to_lowercase()
}

/// The text that `String::from_utf8_lossy` reads from bytes.
pub uninterp spec fn utf8_lossy(bytes: Seq<u8>) -> Seq<char>;

/// `String::from_utf8_lossy` reads bytes as text and puts a replacement
/// character where they are not UTF-8. The contract names the result, and
/// says that bytes which are UTF-8 are read as the text they encode.
#[verifier::external_body]
pub(crate) fn text_from_utf8_lossy(bytes: &[u8]) -> (r: String)
    ensures
        r@ == utf8_lossy(bytes@),
        valid_utf8(bytes@) ==> r@ == decode_utf8(bytes@),
{
    String::from_utf8_lossy(bytes).into_owned()
}

/// The text that `String::from_utf16_lossy` reads from 16-bit units.
pub uninterp spec fn utf16_lossy(units: Seq<u16>) -> Seq<char>;

/// `String::from_utf16_lossy` reads 16-bit units as text and puts a
/// replacement character where they are not UTF-16; the contract names
/// the result and says no more of it.
#[verifier::external_body]
pub(crate) fn text_from_utf16_lossy(units: &[u16]) -> (r: String)
    ensures
        r@ == utf16_lossy(units@),
{
    String::from_utf16_lossy(units)
}

/// The character of a decimal digit.
pub open spec fn digit_char(d: nat) -> char {
    (48 + d % 10) as u8 as char
}

/// A number in decimal notation, without leading zeros.
pub open spec fn decimal(n: nat) -> Seq<char>
    decreases n,
{
    if n < 10 {
        seq![digit_char(n)]
    } else {
        decimal(n / 10).push(digit_char(n % 10))
    }
}

/// Writes a number in decimal notation.
pub fn decimal_text(n: u32) -> (s: String)
    ensures
        s@ == decimal(n as nat),
{
    let mut low: Vec<char> = Vec::new();
    let mut x: u32 = n;
    proof {
        assert(decimal(x as nat) + low@.reverse() =~= decimal(n as nat));
    }
    while x >= 10
        invariant
            decimal(x as nat) + low@.reverse() == decimal(n as nat),
        decreases x,
    {
        let ghost before = low@;
        let d = (48 + x % 10) as u8 as char;
        low.push(d);
        proof {
            assert(low@.reverse() =~= seq![d] + before.reverse());
            assert(decimal((x / 10) as nat) + low@.reverse() =~= decimal(x as nat)
                + before.reverse());
        }
        x = x / 10;
    }
    let mut s = String::new();
    s.push((48 + x) as u8 as char);
    let mut i: usize = low.len();
    proof {
        assert(low@.reverse().take(0) =~= Seq::<char>::empty());
        assert(s@ =~= decimal(x as nat) + low@.reverse().take(0));
    }
    while i > 0
        invariant
            i <= low.len(),
            s@ == decimal(x as nat) + low@.reverse().take(low.len() - i),
        decreases i,
    {
        i -= 1;
        s.push(low[i]);
        proof {
            let r = low@.reverse();
            assert(r.take(low.len() - i) =~= r.take(low.len() - i - 1).push(low@[i as int]));
        }
    }
    proof {
        assert(low@.reverse().take(low.len() as int) =~= low@.reverse());
    }
    s
}

/// The units of `name` in front of its first zero: all where it has none.
pub open spec fn until_nul(name: Seq<u16>) -> Seq<u16>
    decreases name.len(),
{
    if name.len() == 0 || name[0] == 0 {
        Seq::empty()
    } else {
        seq![name[0]] + until_nul(name.drop_first())
    }
}

/// Number of units of `name` in front of its first zero.
pub fn nul_position(name: &[u16]) -> (k: usize)
    ensures
        k <= name.len(),
        name@.take(k as int) == until_nul(name@),
{
    let n = name.len();
    let mut i: usize = 0;
    proof {
        assert(name@.skip(0) =~= name@);
        assert(name@.take(0) + until_nul(name@) =~= until_nul(name@));
    }
    while i < n && name[i] != 0
        invariant
            i <= n,
            n == name.len(),
            name@.take(i as int) + until_nul(name@.skip(i as int)) == until_nul(name@),
        decreases n - i,
    {
        proof {
            let rest = name@.skip(i as int);
            assert(rest[0] == name@[i as int]);
            assert(rest.drop_first() =~= name@.skip(i as int + 1));
            assert(name@.take(i as int + 1) + until_nul(name@.skip(i as int + 1)) =~= name@.take(
                i as int,
            ) + (seq![rest[0]] + until_nul(rest.drop_first())));
        }
        i += 1;
    }
    proof {
        let rest = name@.skip(i as int);
        if i < n {
            assert(rest[0] == name@[i as int]);
        }
        assert(until_nul(rest) =~= Seq::<u16>::empty());
        assert(name@.take(i as int) + until_nul(rest) =~= name@.take(i as int));
    }
    i
}

/// The text of the units in front of the first zero.
pub fn text_until_nul(units: &[u16]) -> (text: String)
    ensures
        text@ == utf16_lossy(until_nul(units@)),
{
    let k = nul_position(units);
    text_from_utf16_lossy(vstd::slice::slice_subrange(units, 0, k))
}

} // verus!
