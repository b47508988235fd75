use vstd::prelude::*;
use vstd::utf8::encode_utf8;

verus! {

/// Length in bytes of the UTF-8 encoding of a string.
pub open spec fn byte_len(s: Seq<char>) -> nat {
    encode_utf8(s).len()
}

/// `n` spaces.
pub open spec fn spaces_seq(n: nat) -> Seq<char> {
    Seq::new(n, |i: int| ' ')
}

/// A string of spaces takes one byte per space.
pub proof fn lemma_spaces_byte_len(n: nat)
    ensures
        byte_len(spaces_seq(n)) == n,
    decreases n,
{
    if n > 0 {
        lemma_spaces_byte_len((n - 1) as nat);
        assert(spaces_seq(n).drop_first() =~= spaces_seq((n - 1) as nat));
        assert(spaces_seq(n)[0] == ' ');
        assert((' ' as u32) == 32);
        assert(vstd::utf8::encode_scalar(' ' as u32).len() == 1);
    }
}

/// `String::push`: appends the character `c` to `s`.
#[verifier::external_body]
pub(crate) fn push_char(s: &mut String, c: char)
    ensures
        final(s)@ == old(s)@.push(c),
{
    s.push(c)
}

/// `String::pop`: removes the last character, if there is one.
#[verifier::external_body]
pub(crate) fn pop_char(s: &mut String)
    ensures
        final(s)@ == if old(s)@.len() > 0 { old(s)@.drop_last() } else { old(s)@ },
{
    s.pop();
}

/// A string of `n` spaces.
pub fn spaces(n: usize) -> (s: String)
    ensures
        s@ == spaces_seq(n as nat),
{
    let mut s = String::new();
    let mut i: usize = 0;
    while i < n
        invariant
            i <= n,
            s@ == spaces_seq(i as nat),
        decreases n - i,
    {
        push_char(&mut s, ' ');
        i += 1;
        proof {
            assert(s@ =~= spaces_seq(i as nat));
        }
    }
    s
}

/// `String::len`: the length in bytes of the string's UTF-8 encoding
/// (which always fits in `usize`).
#[verifier::external_body]
pub(crate) fn str_len(s: &String) -> (r: usize)
    ensures
        r == byte_len(s@),
{
    s.len()
}

} // verus!
