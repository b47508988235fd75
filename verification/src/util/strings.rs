//! Small string operations: lower-casing, splitting at spaces, and byte-wise comparison.
use vstd::prelude::*;
use crate::document::text::push_char;
use crate::util::lexicographic::{has_prefix, lcp, lemma_lcp_props, lemma_lcp_unique, lex_lt};

verus! {

/// What `str::to_lowercase` gives for a string (Unicode lower-case mapping).
pub uninterp spec fn lowercase(s: Seq<char>) -> Seq<char>;

/// `str::to_lowercase`: the string with every character mapped to its lower-case form.
/// The contract only ties the result to the argument through `lowercase`; the mapping itself
/// (the Unicode tables) is not stated.
#[verifier::external_body]
pub(crate) fn to_lowercase(s: &str) -> (r: String)
    ensures
        r@ == lowercase(s@),
{
    s.to_lowercase()
}

/// The characters with the Unicode `White_Space` property: tab, line feed, vertical tab, form
/// feed, carriage return, space, next line, no-break space, ogham space mark, the spaces from
/// en quad to hair space, line and paragraph separator, narrow no-break space, medium
/// mathematical space and ideographic space.
pub open spec fn white_space(c: char) -> bool {
    let u = c as u32;
    ||| 0x09 <= u <= 0x0D
    ||| u == 0x20
    ||| u == 0x85
    ||| u == 0xA0
    ||| u == 0x1680
    ||| 0x2000 <= u <= 0x200A
    ||| u == 0x2028
    ||| u == 0x2029
    ||| u == 0x202F
    ||| u == 0x205F
    ||| u == 0x3000
}

/// Whether `c` is white space in the Unicode sense, as `char::is_whitespace` decides it.
pub fn is_whitespace(c: char) -> (r: bool)
    ensures
        r == white_space(c),
{
    let u = c as u32;
    (0x09 <= u && u <= 0x0D) || u == 0x20 || u == 0x85 || u == 0xA0 || u == 0x1680 || (0x2000 <= u && u <= 0x200A)
        || u == 0x2028 || u == 0x2029 || u == 0x202F || u == 0x205F || u == 0x3000
}

/// `s` without its leading white space.
pub open spec fn trim_start(s: Seq<char>) -> Seq<char>
    decreases s.len(),
{
    if s.len() > 0 && white_space(s[0]) {
        trim_start(s.drop_first())
    } else {
        s
    }
}

/// `s` without its trailing white space.
pub open spec fn trim_end(s: Seq<char>) -> Seq<char>
    decreases s.len(),
{
    if s.len() > 0 && white_space(s.last()) {
        trim_end(s.drop_last())
    } else {
        s
    }
}

/// `s` without leading and trailing white space: the part from its first to its last
/// character that is not white space, or nothing where there is none.
pub open spec fn trimmed(s: Seq<char>) -> Seq<char> {
    trim_end(trim_start(s))
}

/// Where the first `k` characters are white space and the next is not (or there is none),
/// trimming the start leaves the rest from `k` on.
proof fn lemma_trim_start(s: Seq<char>, k: int)
    requires
        0 <= k <= s.len(),
        forall|i: int| 0 <= i < k ==> white_space(#[trigger] s[i]),
        k == s.len() || !white_space(s[k]),
    ensures
        trim_start(s) == s.skip(k),
    decreases k,
{
    if k == 0 {
        assert(s.skip(0) =~= s);
    } else {
        let d = s.drop_first();
        assert forall|i: int| 0 <= i < k - 1 implies white_space(#[trigger] d[i]) by {
            assert(d[i] == s[i + 1]);
        }
        if k - 1 < d.len() {
            assert(d[k - 1] == s[k]);
        }
        lemma_trim_start(d, k - 1);
        assert(d.skip(k - 1) =~= s.skip(k));
    }
}

/// Where the characters from `e` on are white space and the one before is not (or there is
/// none), trimming the end leaves the first `e`.
proof fn lemma_trim_end(t: Seq<char>, e: int)
    requires
        0 <= e <= t.len(),
        forall|i: int| e <= i < t.len() ==> white_space(#[trigger] t[i]),
        e == 0 || !white_space(t[e - 1]),
    ensures
        trim_end(t) == t.take(e),
    decreases t.len() - e,
{
    if e == t.len() {
        assert(t.take(e) =~= t);
    } else {
        let d = t.drop_last();
        assert(white_space(t[t.len() - 1]));
        assert forall|i: int| e <= i < d.len() implies white_space(#[trigger] d[i]) by {
            assert(d[i] == t[i]);
        }
        if e > 0 {
            assert(d[e - 1] == t[e - 1]);
        }
        lemma_trim_end(d, e);
        assert(d.take(e) =~= t.take(e));
    }
}

/// `s` without leading and trailing white space, as `str::trim` gives it.
pub fn trim(s: &str) -> (r: String)
    ensures
        r@ == trimmed(s@),
{
    let mut chars: Vec<char> = Vec::new();
    for c in it: s.chars()
        invariant
            it.seq() == s@,
            chars@ == s@.take(it.index() as int),
    {
        let ghost n = it.index() as int;
        chars.push(c);
        proof {
            assert(s@.take(n + 1) =~= s@.take(n).push(c));
        }
    }
    proof {
        assert(s@.take(s@.len() as int) =~= s@);
    }
    let n = chars.len();
    let mut start: usize = 0;
    while start < n && is_whitespace(chars[start])
        invariant
            n == chars@.len(),
            start <= n,
            forall|i: int| 0 <= i < start ==> white_space(#[trigger] chars@[i]),
        decreases n - start,
    {
        start += 1;
    }
    proof {
        lemma_trim_start(chars@, start as int);
    }
    let mut end: usize = n;
    while end > start && is_whitespace(chars[end - 1])
        invariant
            n == chars@.len(),
            start <= end <= n,
            forall|i: int| end <= i < n ==> white_space(#[trigger] chars@[i]),
        decreases end - start,
    {
        end -= 1;
    }
    proof {
        let rest = chars@.skip(start as int);
        let e = end - start;
        assert forall|i: int| e <= i < rest.len() implies white_space(#[trigger] rest[i]) by {
            assert(rest[i] == chars@[start + i]);
        }
        if e > 0 {
            assert(rest[e - 1] == chars@[end - 1]);
        }
        lemma_trim_end(rest, e);
    }
    let mut r = String::new();
    let mut i: usize = start;
    while i < end
        invariant
            n == chars@.len(),
            start <= i <= end <= n,
            r@ == chars@.subrange(start as int, i as int),
        decreases end - i,
    {
        push_char(&mut r, chars[i]);
        proof {
            assert(chars@.subrange(start as int, i + 1) =~= chars@.subrange(start as int, i as int).push(chars@[i as int]));
        }
        i += 1;
    }
    proof {
        assert(chars@.skip(start as int).take(end - start) =~= chars@.subrange(start as int, end as int));
    }
    r
}

/// The pieces of `s` between spaces, in order; two adjacent spaces give an empty piece, and
/// so do a leading or a trailing space.
pub open spec fn pieces(s: Seq<char>) -> Seq<Seq<char>>
    decreases s.len(),
{
    if s.len() == 0 {
        seq![Seq::<char>::empty()]
    } else if s.last() == ' ' {
        pieces(s.drop_last()).push(Seq::empty())
    } else {
        let p = pieces(s.drop_last());
        p.update(p.len() - 1, p.last().push(s.last()))
    }
}

proof fn lemma_pieces_nonempty(s: Seq<char>)
    ensures
        pieces(s).len() >= 1,
    decreases s.len(),
{
    if s.len() > 0 {
        lemma_pieces_nonempty(s.drop_last());
    }
}

/// Splits `s` at every space.
pub fn split_spaces(s: &str) -> (r: Vec<String>)
    ensures
        r@.map_values(|w: String| w@) == pieces(s@),
{
    let mut done: Vec<String> = Vec::new();
    let mut current = String::new();
    let ghost text = s@;
    proof {
        assert(text.take(0) =~= Seq::<char>::empty());
        assert(done@.map_values(|w: String| w@).push(current@) =~= pieces(text.take(0)));
    }
    for c in it: s.chars()
        invariant
            text == s@,
            it.seq() == text,
            done@.map_values(|w: String| w@).push(current@) == pieces(text.take(it.index() as int)),
    {
        let ghost n = it.index() as int;
        let ghost before = pieces(text.take(n));
        proof {
            assert(text.take(n + 1).drop_last() =~= text.take(n));
            lemma_pieces_nonempty(text.take(n));
        }
        if c == ' ' {
            let finished = current;
            current = String::new();
            done.push(finished);
            proof {
                assert(done@.map_values(|w: String| w@).push(current@) =~= before.push(Seq::empty()));
            }
        } else {
            let ghost old_done = done@;
            push_char(&mut current, c);
            proof {
                assert(done@.map_values(|w: String| w@).push(current@) =~= before.update(
                    before.len() - 1,
                    before.last().push(c),
                ));
            }
        }
    }
    proof {
        assert(text.take(text.len() as int) =~= text);
    }
    done.push(current);
    done
}

/// Whether `a` starts with `p`.
pub fn bytes_start_with(a: &[u8], p: &[u8]) -> (r: bool)
    ensures
        r == has_prefix(a@, p@),
{
    if p.len() > a.len() {
        return false;
    }
    let mut i: usize = 0;
    while i < p.len()
        invariant
            p@.len() <= a@.len(),
            i <= p@.len(),
            forall|j: int| 0 <= j < i ==> a@[j] == p@[j],
        decreases p@.len() - i,
    {
        if a[i] != p[i] {
            proof {
                assert(a@.take(p@.len() as int)[i as int] != p@[i as int]);
            }
            return false;
        }
        i += 1;
    }
    proof {
        assert(a@.take(p@.len() as int) =~= p@);
    }
    true
}

/// Whether `a` comes strictly before `b` in byte-wise lexicographic order, the order of
/// `str`'s comparison operators.
pub fn bytes_lt(a: &[u8], b: &[u8]) -> (r: bool)
    ensures
        r == lex_lt(a@, b@),
{
    let mut i: usize = 0;
    while i < a.len() && i < b.len() && a[i] == b[i]
        invariant
            i <= a@.len(),
            i <= b@.len(),
            forall|j: int| 0 <= j < i ==> a@[j] == b@[j],
        decreases a@.len() - i,
    {
        i += 1;
    }
    proof {
        lemma_lcp_unique(a@, b@, i as nat);
        lemma_lcp_props(a@, b@);
    }
    if i < a.len() && i < b.len() {
        a[i] < b[i]
    } else {
        i == a.len() && i < b.len()
    }
}

/// The decimal digit for `d` (below ten).
pub open spec fn digit(d: nat) -> char {
    if d == 0 {
        '0'
    } else if d == 1 {
        '1'
    } else if d == 2 {
        '2'
    } else if d == 3 {
        '3'
    } else if d == 4 {
        '4'
    } else if d == 5 {
        '5'
    } else if d == 6 {
        '6'
    } else if d == 7 {
        '7'
    } else if d == 8 {
        '8'
    } else {
        '9'
    }
}

/// `n` written in decimal, as `format!` writes it.
pub open spec fn decimal(n: nat) -> Seq<char>
    decreases n,
{
    if n < 10 {
        seq![digit(n)]
    } else {
        decimal(n / 10).push(digit(n % 10))
    }
}

fn digit_char(d: usize) -> (c: char)
    requires
        d < 10,
    ensures
        c == digit(d as nat),
{
    match d {
        0 => '0',
        1 => '1',
        2 => '2',
        3 => '3',
        4 => '4',
        5 => '5',
        6 => '6',
        7 => '7',
        8 => '8',
        _ => '9',
    }
}

/// `n` written in decimal.
pub fn to_decimal(n: usize) -> (r: String)
    ensures
        r@ == decimal(n as nat),
    decreases n,
{
    if n < 10 {
        let mut s = String::new();
        push_char(&mut s, digit_char(n));
        proof {
            assert(s@ =~= seq![digit(n as nat)]);
        }
        s
    } else {
        let mut s = to_decimal(n / 10);
        push_char(&mut s, digit_char(n % 10));
        s
    }
}

} // verus!
