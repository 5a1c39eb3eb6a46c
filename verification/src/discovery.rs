//! How a client finds the daemon: the daemon leaves its address as the
//! first line of a file, in the form `<ip>:<port>`.

use crate::render::line;
use crate::text::{chars_of, text_of};
use vstd::prelude::*;

verus! {

/// Why the connection file names no address.
#[derive(Debug, Clone, Copy, PartialEq, Eq, Structural)]
pub enum AddressError {
    /// The file holds no line that is not blank.
    Empty,
    /// The line holds no `:`.
    Malformed,
    /// What follows the `:` is no port number.
    InvalidPort,
}

/// Whether `char::is_whitespace` takes the character for white space.
pub uninterp spec fn is_space(c: char) -> bool;

/// `char::is_whitespace` says whether a character is white space; the
/// contract names its answer and says no more of it.
#[verifier::external_body]
pub(crate) fn char_is_whitespace(c: char) -> (r: bool)
    ensures
        r == is_space(c),
{
    c.is_whitespace()
}

/// The text in front of the first `sep`: all of it where it holds none.
pub open spec fn before_first(text: Seq<char>, sep: char) -> Seq<char>
    decreases text.len(),
{
    if text.len() == 0 || text[0] == sep {
        Seq::empty()
    } else {
        seq![text[0]] + before_first(text.drop_first(), sep)
    }
}

/// The text behind the first `sep`, where it holds one.
pub open spec fn after_first(text: Seq<char>, sep: char) -> Option<Seq<char>>
    decreases text.len(),
{
    if text.len() == 0 {
        None
    } else if text[0] == sep {
        Some(text.drop_first())
    } else {
        after_first(text.drop_first(), sep)
    }
}

/// The text without the white space in front of it.
pub open spec fn trim_start(text: Seq<char>) -> Seq<char>
    decreases text.len(),
{
    if text.len() > 0 && is_space(text[0]) {
        trim_start(text.drop_first())
    } else {
        text
    }
}

/// The text without the white space at its end.
pub open spec fn trim_end(text: Seq<char>) -> Seq<char>
    decreases text.len(),
{
    if text.len() > 0 && is_space(text.last()) {
        trim_end(text.drop_last())
    } else {
        text
    }
}

/// The text without the white space around it.
pub open spec fn trimmed(text: Seq<char>) -> Seq<char> {
    trim_end(trim_start(text))
}

/// The first line of the text that is not blank, without the white space
/// around it. Lines end at a line feed.
pub open spec fn address_line(content: Seq<char>) -> Option<Seq<char>>
    decreases content.len(),
{
    if trimmed(before_first(content, '\n')).len() > 0 {
        Some(trimmed(before_first(content, '\n')))
    } else {
        match after_first(content, '\n') {
            None => None,
            Some(rest) => {
                proof {
                    lemma_after_first_shorter(content, '\n');
                }
                address_line(rest)
            },
        }
    }
}

/// What stands behind the first `sep` is shorter than the text.
pub proof fn lemma_after_first_shorter(text: Seq<char>, sep: char)
    ensures
        after_first(text, sep) is Some ==> after_first(text, sep)->0.len() < text.len(),
    decreases text.len(),
{
    if text.len() > 0 && text[0] != sep {
        lemma_after_first_shorter(text.drop_first(), sep);
    }
}

/// The value of a decimal digit, if `c` is one.
pub open spec fn digit_value(c: char) -> Option<nat> {
    if '0' <= c <= '9' {
        Some((c as nat - '0' as nat) as nat)
    } else {
        None
    }
}

/// The number that a text of decimal digits spells, if it is one and the
/// number is no more than `limit`. The empty text spells none.
pub open spec fn digits_value(text: Seq<char>, limit: nat) -> Option<nat>
    decreases text.len(),
{
    if text.len() == 0 {
        None
    } else {
        match digit_value(text.last()) {
            None => None,
            Some(d) => if text.len() == 1 {
                if d <= limit {
                    Some(d)
                } else {
                    None
                }
            } else {
                match digits_value(text.drop_last(), limit) {
                    None => None,
                    Some(v) => if 10 * v + d <= limit {
                        Some(10 * v + d)
                    } else {
                        None
                    },
                }
            },
        }
    }
}

/// The port that a text spells: decimal digits, a `+` in front of them
/// allowed, and a value that a port can take.
pub open spec fn port_value(text: Seq<char>) -> Option<u16> {
    let digits = if text.len() > 0 && text[0] == '+' {
        text.drop_first()
    } else {
        text
    };
    match digits_value(digits, 0xffff) {
        Some(v) => Some(v as u16),
        None => None,
    }
}

/// The address that the content of the connection file names: the host
/// is what the first line that is not blank holds in front of its first
/// `:`, the port what it holds between that and the next.
pub open spec fn address_of(content: Seq<char>) -> Result<(Seq<char>, u16), AddressError> {
    match address_line(content) {
        None => Err(AddressError::Empty),
        Some(line) => match after_first(line, ':') {
            None => Err(AddressError::Malformed),
            Some(rest) => match port_value(before_first(rest, ':')) {
                None => Err(AddressError::InvalidPort),
                Some(port) => Ok((before_first(line, ':'), port)),
            },
        },
    }
}

/// Where the first `sep` stands in `chars` from `from` on and before
/// `to`: `to` where there is none.
fn position_of(chars: &Vec<char>, from: usize, to: usize, sep: char) -> (k: usize)
    requires
        from <= to <= chars.len(),
    ensures
        from <= k <= to,
        before_first(chars@.subrange(from as int, to as int), sep) == chars@.subrange(
            from as int,
            k as int,
        ),
        after_first(chars@.subrange(from as int, to as int), sep) == if k < to {
            Some(chars@.subrange(k + 1, to as int))
        } else {
            None
        },
    decreases to - from,
{
    let ghost part = chars@.subrange(from as int, to as int);
    if from == to {
        proof {
            assert(chars@.subrange(from as int, from as int) =~= Seq::<char>::empty());
        }
        return from;
    }
    proof {
        assert(part[0] == chars@[from as int]);
        assert(part.drop_first() =~= chars@.subrange(from + 1, to as int));
    }
    if chars[from] == sep {
        proof {
            assert(chars@.subrange(from as int, from as int) =~= Seq::<char>::empty());
        }
        return from;
    }
    let k = position_of(chars, from + 1, to, sep);
    proof {
        assert(seq![chars@[from as int]] + chars@.subrange(from + 1, k as int) =~= chars@.subrange(
            from as int,
            k as int,
        ));
    }
    k
}

/// The range of `chars` between `from` and `to` without the white space
/// around it.
fn trim_range(chars: &Vec<char>, from: usize, to: usize) -> (r: (usize, usize))
    requires
        from <= to <= chars.len(),
    ensures
        from <= r.0 <= r.1 <= to,
        trimmed(chars@.subrange(from as int, to as int)) == chars@.subrange(
            r.0 as int,
            r.1 as int,
        ),
{
    let mut a = from;
    proof {
        assert(chars@.subrange(from as int, to as int) == chars@.subrange(a as int, to as int));
    }
    while a < to && char_is_whitespace(chars[a])
        invariant
            from <= a <= to <= chars.len(),
            trim_start(chars@.subrange(from as int, to as int)) == trim_start(
                chars@.subrange(a as int, to as int),
            ),
        decreases to - a,
    {
        proof {
            let part = chars@.subrange(a as int, to as int);
            assert(part[0] == chars@[a as int]);
            assert(part.drop_first() =~= chars@.subrange(a + 1, to as int));
        }
        a += 1;
    }
    proof {
        let part = chars@.subrange(a as int, to as int);
        if a < to {
            assert(part[0] == chars@[a as int]);
        }
        assert(trim_start(part) == part);
    }
    let mut b = to;
    while a < b && char_is_whitespace(chars[b - 1])
        invariant
            a <= b <= to <= chars.len(),
            trim_end(chars@.subrange(a as int, to as int)) == trim_end(
                chars@.subrange(a as int, b as int),
            ),
        decreases b - a,
    {
        proof {
            let part = chars@.subrange(a as int, b as int);
            assert(part.last() == chars@[b - 1]);
            assert(part.drop_last() =~= chars@.subrange(a as int, b - 1));
        }
        b -= 1;
    }
    proof {
        let part = chars@.subrange(a as int, b as int);
        if a < b {
            assert(part.last() == chars@[b - 1]);
        }
        assert(trim_end(part) == part);
    }
    (a, b)
}

/// Reads the number that decimal digits spell, as far as `limit`.
fn read_digits(chars: &Vec<char>, from: usize, to: usize, limit: u32) -> (r: Option<u32>)
    requires
        from <= to <= chars.len(),
        limit <= 0xffff,
    ensures
        match r {
            Some(v) => digits_value(chars@.subrange(from as int, to as int), limit as nat) == Some(
                v as nat,
            ),
            None => digits_value(chars@.subrange(from as int, to as int), limit as nat) is None,
        },
{
    if from == to {
        return None;
    }
    let mut value: u32 = 0;
    let mut i = from;
    while i < to
        invariant
            from <= i <= to <= chars.len(),
            from < to,
            limit <= 0xffff,
            value <= limit,
            i > from ==> digits_value(chars@.subrange(from as int, i as int), limit as nat) == Some(
                value as nat,
            ),
            i == from ==> value == 0,
        ensures
            i == to,
            digits_value(chars@.subrange(from as int, to as int), limit as nat) == Some(
                value as nat,
            ),
        decreases to - i,
    {
        let c = chars[i];
        let ghost part = chars@.subrange(from as int, i + 1);
        proof {
            assert(part.last() == c);
            assert(part.drop_last() =~= chars@.subrange(from as int, i as int));
        }
        if !('0' <= c && c <= '9') {
            proof {
                assert(chars@.subrange(from as int, to as int).take(i + 1 - from) =~= part);
                assert(digits_value(part, limit as nat) is None);
                lemma_digits_prefix(
                    chars@.subrange(from as int, to as int),
                    i + 1 - from,
                    limit as nat,
                );
            }
            return None;
        }
        let d = c as u32 - '0' as u32;
        if value * 10 + d > limit {
            proof {
                assert(chars@.subrange(from as int, to as int).take(i + 1 - from) =~= part);
                assert(digits_value(part, limit as nat) is None);
                lemma_digits_prefix(
                    chars@.subrange(from as int, to as int),
                    i + 1 - from,
                    limit as nat,
                );
            }
            return None;
        }
        value = value * 10 + d;
        i += 1;
    }
    Some(value)
}

/// A text of digits spells no number where a part in front of it spells
/// none.
pub proof fn lemma_digits_prefix(text: Seq<char>, k: int, limit: nat)
    requires
        0 < k <= text.len(),
        digits_value(text.take(k), limit) is None,
    ensures
        digits_value(text, limit) is None,
    decreases text.len() - k,
{
    if k < text.len() {
        assert(text.take(k + 1).drop_last() =~= text.take(k));
        lemma_digits_prefix(text, k + 1, limit);
    } else {
        assert(text.take(k) =~= text);
    }
}

/// Reads a port number.
fn read_port(chars: &Vec<char>, from: usize, to: usize) -> (r: Option<u16>)
    requires
        from <= to <= chars.len(),
    ensures
        r == port_value(chars@.subrange(from as int, to as int)),
{
    let ghost part = chars@.subrange(from as int, to as int);
    let start = if from < to && chars[from] == '+' {
        from + 1
    } else {
        from
    };
    proof {
        if from < to {
            assert(part[0] == chars@[from as int]);
            assert(part.drop_first() =~= chars@.subrange(from + 1, to as int));
        }
    }
    match read_digits(chars, start, to, 0xffff) {
        Some(v) => Some(v as u16),
        None => None,
    }
}

/// A copy of the characters of `chars` between `from` and `to`.
fn text_between(chars: &Vec<char>, from: usize, to: usize) -> (s: String)
    requires
        from <= to <= chars.len(),
    ensures
        s@ == chars@.subrange(from as int, to as int),
{
    let mut part: Vec<char> = Vec::new();
    let mut i = from;
    while i < to
        invariant
            from <= i <= to <= chars.len(),
            part@ == chars@.subrange(from as int, i as int),
        decreases to - i,
    {
        part.push(chars[i]);
        proof {
            assert(chars@.subrange(from as int, i + 1) =~= chars@.subrange(
                from as int,
                i as int,
            ).push(chars@[i as int]));
        }
        i += 1;
    }
    text_of(&part)
}

/// Reads the address of the daemon from the content of the connection
/// file: the host as text, and the port.
pub fn parse_connection_addr(content: &str) -> (r: Result<(String, u16), AddressError>)
    ensures
        match address_of(content@) {
            Ok((host, port)) => r is Ok && r->Ok_0.0@ == host && r->Ok_0.1 == port,
            Err(e) => r is Err && r->Err_0 == e,
        },
{
    let chars = chars_of(content);
    let n = chars.len();
    let mut from: usize = 0;
    let mut line: Option<(usize, usize)> = None;
    proof {
        assert(chars@.subrange(0, n as int) =~= chars@);
    }
    while line.is_none()
        invariant
            from <= n,
            n == chars.len(),
            chars@ == content@,
            match line {
                None => address_line(chars@) == address_line(
                    chars@.subrange(from as int, n as int),
                ),
                Some((a, b)) => a < b <= n && address_line(chars@) == Some(
                    chars@.subrange(a as int, b as int),
                ),
            },
        ensures
            line is Some,
        decreases
                n - from + (if line is None {
                    1nat
                } else {
                    0nat
                }),
    {
        let end = position_of(&chars, from, n, '\n');
        let (a, b) = trim_range(&chars, from, end);
        if a < b {
            line = Some((a, b));
        } else if end < n {
            proof {
                assert(chars@.subrange(a as int, b as int).len() == 0);
            }
            from = end + 1;
        } else {
            proof {
                assert(chars@.subrange(a as int, b as int).len() == 0);
            }
            return Err(AddressError::Empty);
        }
    }
    let (a, b) = line.unwrap();
    let colon = position_of(&chars, a, b, ':');
    if colon == b {
        return Err(AddressError::Malformed);
    }
    let stop = position_of(&chars, colon + 1, b, ':');
    match read_port(&chars, colon + 1, stop) {
        None => Err(AddressError::InvalidPort),
        Some(port) => Ok((text_between(&chars, a, colon), port)),
    }
}

} // verus!
