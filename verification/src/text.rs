use vstd::prelude::*;
use vstd::string::StrSliceExecFns;

verus! {

/// The characters of a text buffer, as a vector the parser can index.
pub fn str_to_chars(s: &str) -> (v: Vec<char>)
    ensures
        v@ == s@,
{
    let n = s.unicode_len();
    let mut v: Vec<char> = Vec::new();
    let mut i: usize = 0;
    while i < n
        invariant
            i <= n,
            n == s@.len(),
            v@ == s@.subrange(0, i as int),
        decreases n - i,
    {
        let c = s.get_char(i);
        v.push(c);
        i = i + 1;
        proof {
            assert(v@ =~= s@.subrange(0, i as int));
        }
    }
    proof {
        assert(s@.subrange(0, n as int) =~= s@);
    }
    v
}

/// A copy of the characters in positions `from..to`.
pub fn copy_range(text: &Vec<char>, from: usize, to: usize) -> (v: Vec<char>)
    requires
        from <= to <= text@.len(),
    ensures
        v@ == text@.subrange(from as int, to as int),
{
    let mut v: Vec<char> = Vec::new();
    let mut i: usize = from;
    while i < to
        invariant
            from <= i <= to <= text@.len(),
            v@ == text@.subrange(from as int, i as int),
        decreases to - i,
    {
        v.push(text[i]);
        i = i + 1;
        proof {
            assert(v@ =~= text@.subrange(from as int, i as int));
        }
    }
    v
}

/// Appends one character to `out`.
pub fn push_char(out: &mut Vec<char>, c: char)
    ensures
        final(out)@ == old(out)@ + seq![c],
{
    out.push(c);
    proof {
        assert(out@ =~= old(out)@ + seq![c]);
    }
}

/// Appends the characters of `s2` to `out`.
pub fn append_str(out: &mut Vec<char>, s2: &str)
    ensures
        final(out)@ == old(out)@ + s2@,
{
    let n = s2.unicode_len();
    let mut i: usize = 0;
    while i < n
        invariant
            i <= n,
            n == s2@.len(),
            out@ == old(out)@ + s2@.subrange(0, i as int),
        decreases n - i,
    {
        let c = s2.get_char(i);
        out.push(c);
        i = i + 1;
        proof {
            assert(out@ =~= old(out)@ + s2@.subrange(0, i as int));
        }
    }
    proof {
        assert(old(out)@ + s2@.subrange(0, n as int) =~= old(out)@ + s2@);
    }
}

/// Appends the characters of `other` to `out`.
pub fn append_vec(out: &mut Vec<char>, other: &Vec<char>)
    ensures
        final(out)@ == old(out)@ + other@,
{
    let n = other.len();
    let mut i: usize = 0;
    while i < n
        invariant
            i <= n,
            n == other@.len(),
            out@ == old(out)@ + other@.subrange(0, i as int),
        decreases n - i,
    {
        out.push(other[i]);
        i = i + 1;
        proof {
            assert(out@ =~= old(out)@ + other@.subrange(0, i as int));
        }
    }
    proof {
        assert(old(out)@ + other@.subrange(0, n as int) =~= old(out)@ + other@);
    }
}

/// Relies on `String`'s `FromIterator` over `char`: the collected string's
/// characters are exactly the characters of the vector, in order.
#[verifier::external_body]
pub fn chars_to_string(v: &Vec<char>) -> (r: String)
    ensures
        r@ == v@,
{
    v.iter().collect()
}

/// Relies on `char::from_u32`: it returns `Some` exactly when the argument is
/// a Unicode scalar value (not a surrogate code, and at most `0x10FFFF`), and
/// the returned character has that scalar value.
#[verifier::external_body]
pub fn char_from_u32(v: u32) -> (r: Option<char>)
    ensures
        r is Some <==> (v < 0xD800 || (0xE000 <= v && v <= 0x10FFFF)),
        r is Some ==> r->0 as u32 == v,
{
    char::from_u32(v)
}

} // verus!
