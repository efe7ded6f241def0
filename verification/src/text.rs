//! Character-level helpers shared by the tokenizer and the renderers:
//! the whitespace predicate, whitespace trimming, and string building.

use vstd::prelude::*;

verus! {

/// The Unicode `White_Space` code points: the characters that trimming
/// removes from the ends of a field before it is rendered.
pub open spec fn is_space(c: char) -> bool {
    let u = c as u32;
    (0x9 <= u && u <= 0xD) || u == 0x20 || u == 0x85 || u == 0xA0 || u == 0x1680 || (0x2000 <= u
        && u <= 0x200A) || u == 0x2028 || u == 0x2029 || u == 0x202F || u == 0x205F || u == 0x3000
}

/// Runtime test for [`is_space`].
pub fn char_is_space(c: char) -> (r: bool)
    ensures
        r == is_space(c),
{
    let u = c as u32;
    (u >= 0x9 && u <= 0xD) || u == 0x20 || u == 0x85 || u == 0xA0 || u == 0x1680 || (u >= 0x2000
        && u <= 0x200A) || u == 0x2028 || u == 0x2029 || u == 0x202F || u == 0x205F || u == 0x3000
}

/// `s` with every trailing whitespace character removed.
pub open spec fn trim_end(s: Seq<char>) -> Seq<char>
    decreases s.len(),
{
    if s.len() > 0 && is_space(s.last()) {
        trim_end(s.drop_last())
    } else {
        s
    }
}

/// `s` with every leading whitespace character removed.
pub open spec fn trim_start(s: Seq<char>) -> Seq<char>
    decreases s.len(),
{
    if s.len() > 0 && is_space(s.first()) {
        trim_start(s.drop_first())
    } else {
        s
    }
}

/// `s` with leading and trailing whitespace removed.
pub open spec fn trim_spec(s: Seq<char>) -> Seq<char> {
    trim_start(trim_end(s))
}

/// Returns the slice of `s` with leading and trailing whitespace removed.
pub fn trim_str<'a>(s: &'a str) -> (r: &'a str)
    ensures
        r@ == trim_spec(s@),
{
    let len = s.unicode_len();
    let mut b: usize = len;
    proof {
        assert(s@.take(len as int) =~= s@);
    }
    while b > 0 && char_is_space(s.get_char(b - 1))
        invariant
            b <= len,
            len == s@.len(),
            trim_end(s@.take(b as int)) == trim_end(s@),
        decreases b,
    {
        proof {
            assert(s@.take(b as int).drop_last() =~= s@.take(b - 1));
        }
        b = b - 1;
    }
    proof {
        assert(trim_end(s@.take(b as int)) == s@.take(b as int));
    }
    let mut a: usize = 0;
    while a < b && char_is_space(s.get_char(a))
        invariant
            a <= b <= len,
            len == s@.len(),
            trim_end(s@) == s@.take(b as int),
            trim_start(s@.subrange(a as int, b as int)) == trim_start(s@.take(b as int)),
        decreases b - a,
    {
        proof {
            assert(s@.subrange(a as int, b as int).drop_first() =~= s@.subrange(
                a + 1,
                b as int,
            ));
        }
        a = a + 1;
    }
    proof {
        assert(trim_start(s@.subrange(a as int, b as int)) == s@.subrange(a as int, b as int));
    }
    s.substring_char(a, b)
}

/// Relies on `String::push`: appends the given character to the end of the
/// string.
#[verifier::external_body]
pub fn push_char(s: &mut String, c: char)
    ensures
        final(s)@ == old(s)@ + seq![c],
{
    s.push(c);
}

} // verus!
