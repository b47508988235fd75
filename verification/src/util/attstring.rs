//! Attribute strings: space-separated `key=value` pairs, where a value may be
//! wrapped in double quotes to hold spaces, as in `lang=rust caption="a b"`.
use vstd::prelude::*;
use vstd::hash_map::StringHashMap;
use crate::document::text::push_char;

verus! {

/// A key and its value, as character sequences.
pub type Pair = (Seq<char>, Seq<char>);

/// Why an attribute string was rejected.
#[derive(Debug, Clone, Copy, PartialEq, Eq, Structural)]
pub enum Error {
    UnexpectedEndOfString,
    InvalidKeyChar,
    InvalidValueChar,
    MissingValue,
}

/// Where the reader stands after some prefix of the input.
pub enum Scan {
    /// Between pairs.
    Idle,
    /// Inside a key.
    Key(Seq<char>),
    /// Inside an unquoted value.
    Value(Seq<char>, Seq<char>),
    /// Inside a quoted value.
    Quoted(Seq<char>, Seq<char>),
}

/// Reads one character: the pairs completed so far and the new position, or the error.
pub open spec fn step(pairs: Seq<Pair>, st: Scan, c: char) -> Result<(Seq<Pair>, Scan), Error> {
    match st {
        Scan::Idle => {
            if c == ' ' {
                Ok((pairs, Scan::Idle))
            } else if c == '=' {
                Err(Error::UnexpectedEndOfString)
            } else {
                Ok((pairs, Scan::Key(seq![c])))
            }
        },
        Scan::Key(k) => {
            if c == ' ' {
                Err(Error::InvalidKeyChar)
            } else if c == '=' {
                Ok((pairs, Scan::Value(k, Seq::empty())))
            } else {
                Ok((pairs, Scan::Key(k.push(c))))
            }
        },
        Scan::Value(k, v) => {
            if c == ' ' {
                Ok((pairs.push((k, v)), Scan::Idle))
            } else if c == '"' {
                if v.len() == 0 {
                    Ok((pairs, Scan::Quoted(k, v)))
                } else {
                    Err(Error::InvalidValueChar)
                }
            } else {
                Ok((pairs, Scan::Value(k, v.push(c))))
            }
        },
        Scan::Quoted(k, v) => {
            if c == '"' {
                Ok((pairs.push((k, v)), Scan::Idle))
            } else {
                Ok((pairs, Scan::Quoted(k, v.push(c))))
            }
        },
    }
}

/// Reads all of `s` from the start, stopping at the first error.
pub open spec fn scan(s: Seq<char>) -> Result<(Seq<Pair>, Scan), Error>
    decreases s.len(),
{
    if s.len() == 0 {
        Ok((Seq::empty(), Scan::Idle))
    } else {
        match scan(s.drop_last()) {
            Ok((pairs, st)) => step(pairs, st, s.last()),
            Err(e) => Err(e),
        }
    }
}

/// What the end of the input means in each position.
pub open spec fn finish(pairs: Seq<Pair>, st: Scan) -> Result<Seq<Pair>, Error> {
    match st {
        Scan::Idle => Ok(pairs),
        Scan::Key(_) => Err(Error::MissingValue),
        Scan::Value(k, v) => Ok(pairs.push((k, v))),
        Scan::Quoted(_, _) => Err(Error::UnexpectedEndOfString),
    }
}

/// The pairs of an attribute string, in order, or why it is rejected.
pub open spec fn parse_spec(s: Seq<char>) -> Result<Seq<Pair>, Error> {
    match scan(s) {
        Ok((pairs, st)) => finish(pairs, st),
        Err(e) => Err(e),
    }
}

/// The pairs of a vector of strings, as character sequences.
pub open spec fn pairs_view(v: Seq<(String, String)>) -> Seq<Pair> {
    v.map_values(|p: (String, String)| (p.0@, p.1@))
}

/// The map that inserting the pairs of `v` in order builds, keyed by the keys' characters: a
/// later value for a key replaces an earlier one.
pub open spec fn last_wins(v: Seq<(String, String)>) -> Map<Seq<char>, String>
    decreases v.len(),
{
    if v.len() == 0 {
        Map::empty()
    } else {
        last_wins(v.drop_last()).insert(v.last().0@, v.last().1)
    }
}

/// The map of pairs given as character sequences: each key with the value of its last pair.
pub open spec fn pair_map(ps: Seq<Pair>) -> Map<Seq<char>, Seq<char>>
    decreases ps.len(),
{
    if ps.len() == 0 {
        Map::empty()
    } else {
        pair_map(ps.drop_last()).insert(ps.last().0, ps.last().1)
    }
}

/// Seen through the strings' characters, the map of string pairs is the map of their views.
proof fn lemma_last_wins_view(v: Seq<(String, String)>)
    ensures
        last_wins(v).map_values(|s: String| s@) == pair_map(pairs_view(v)),
    decreases v.len(),
{
    if v.len() > 0 {
        lemma_last_wins_view(v.drop_last());
        assert(pairs_view(v).drop_last() =~= pairs_view(v.drop_last()));
        assert(last_wins(v).map_values(|s: String| s@) =~= last_wins(v.drop_last()).map_values(|s: String| s@).insert(
            v.last().0@,
            v.last().1@,
        ));
    } else {
        assert(last_wins(v).map_values(|s: String| s@) =~= Map::<Seq<char>, Seq<char>>::empty());
    }
}

/// The pairs as a map: each key with the value of its last pair.
pub fn pairs_map(pairs: &Vec<(String, String)>) -> (r: StringHashMap<String>)
    ensures
        r@ == last_wins(pairs@),
{
    let mut result: StringHashMap<String> = StringHashMap::new();
    let mut i: usize = 0;
    while i < pairs.len()
        invariant
            i <= pairs@.len(),
            result@ == last_wins(pairs@.take(i as int)),
        decreases pairs@.len() - i,
    {
        let key = pairs[i].0.clone();
        let value = pairs[i].1.clone();
        result.insert(key, value);
        proof {
            assert(pairs@.take(i + 1).drop_last() =~= pairs@.take(i as int));
        }
        i += 1;
    }
    proof {
        assert(pairs@.take(i as int) =~= pairs@);
    }
    result
}

/// The parsed pairs of an attribute string, in the order in which they appear.
pub struct Attributes(Vec<(String, String)>);

impl View for Attributes {
    type V = Seq<Pair>;

    closed spec fn view(&self) -> Seq<Pair> {
        pairs_view(self.0@)
    }
}

impl Attributes {
    /// The pairs, as strings.
    pub closed spec fn strings(&self) -> Seq<(String, String)> {
        self.0@
    }

    /// The pairs, in order.
    pub fn pairs(self) -> (r: Vec<(String, String)>)
        ensures
            pairs_view(r@) == self@,
            r@ == self.strings(),
    {
        self.0
    }

    /// The pairs as a map; where a key occurs twice, its last value counts.
    pub fn as_hashmap(&self) -> (r: StringHashMap<String>)
        ensures
            r@ == last_wins(self.strings()),
            r@.map_values(|s: String| s@) == pair_map(self@),
    {
        proof {
            lemma_last_wins_view(self.0@);
        }
        pairs_map(&self.0)
    }
}

impl Error {
    /// A description of the error, for messages.
    pub fn to_string(&self) -> (r: String)
        ensures
            r@ == match *self {
                Error::UnexpectedEndOfString => "unexpected end of string"@,
                Error::InvalidKeyChar => "invalid key character"@,
                Error::InvalidValueChar => "invalid value character"@,
                Error::MissingValue => "missing value"@,
            },
    {
        match self {
            Error::UnexpectedEndOfString => String::from_str("unexpected end of string"),
            Error::InvalidKeyChar => String::from_str("invalid key character"),
            Error::InvalidValueChar => String::from_str("invalid value character"),
            Error::MissingValue => String::from_str("missing value"),
        }
    }
}

/// Where the executable reader stands; the key and value are kept beside it.
enum Mode {
    Idle,
    Key,
    Value,
    Quoted,
}

spec fn position(mode: Mode, key: Seq<char>, value: Seq<char>) -> Scan {
    match mode {
        Mode::Idle => Scan::Idle,
        Mode::Key => Scan::Key(key),
        Mode::Value => Scan::Value(key, value),
        Mode::Quoted => Scan::Quoted(key, value),
    }
}

/// Reading one more character extends the scan of a prefix by one step.
proof fn lemma_scan_next(s: Seq<char>, n: int)
    requires
        0 <= n < s.len(),
    ensures
        scan(s.take(n + 1)) == match scan(s.take(n)) {
            Ok((pairs, st)) => step(pairs, st, s[n]),
            Err(e) => Err(e),
        },
{
    assert(s.take(n + 1).drop_last() =~= s.take(n));
}

/// Once the reader has failed, it fails with the same error on every longer input.
proof fn lemma_error_persists(s: Seq<char>, n: int)
    requires
        0 <= n <= s.len(),
        scan(s.take(n)) is Err,
    ensures
        scan(s) == scan(s.take(n)),
    decreases s.len() - n,
{
    if n < s.len() {
        lemma_scan_next(s, n);
        lemma_error_persists(s, n + 1);
    } else {
        assert(s.take(n) =~= s);
    }
}

/// Spaces before the first pair are skipped: they change nothing, whatever follows.
pub proof fn lemma_leading_space_ignored(s: Seq<char>)
    ensures
        parse_spec(seq![' '] + s) == parse_spec(s),
{
    lemma_scan_leading_space(s);
}

proof fn lemma_scan_leading_space(s: Seq<char>)
    ensures
        scan(seq![' '] + s) == scan(s),
    decreases s.len(),
{
    if s.len() == 0 {
        assert(seq![' '] + s =~= seq![' ']);
        assert(seq![' '].drop_last() =~= Seq::<char>::empty());
        assert(scan(Seq::<char>::empty()) == Ok::<(Seq<Pair>, Scan), Error>((Seq::empty(), Scan::Idle)));
    } else {
        lemma_scan_leading_space(s.drop_last());
        assert((seq![' '] + s).drop_last() =~= seq![' '] + s.drop_last());
        assert((seq![' '] + s).last() == s.last());
    }
}

/// A space after an accepted string is skipped: the pairs stay the same.
pub proof fn lemma_trailing_space_ignored(s: Seq<char>)
    requires
        parse_spec(s) is Ok,
    ensures
        parse_spec(s.push(' ')) == parse_spec(s),
{
    assert(s.push(' ').drop_last() =~= s);
}

/// Reads `t` from the position `st`, with the pairs `pairs` already completed.
pub open spec fn run(pairs: Seq<Pair>, st: Scan, t: Seq<char>) -> Result<(Seq<Pair>, Scan), Error>
    decreases t.len(),
{
    if t.len() == 0 {
        Ok((pairs, st))
    } else {
        match run(pairs, st, t.drop_last()) {
            Ok((p, st2)) => step(p, st2, t.last()),
            Err(e) => Err(e),
        }
    }
}

/// Reads `t` after a reading that ended in `r`.
pub open spec fn run_on(r: Result<(Seq<Pair>, Scan), Error>, t: Seq<char>) -> Result<(Seq<Pair>, Scan), Error> {
    match r {
        Ok((pairs, st)) => run(pairs, st, t),
        Err(e) => Err(e),
    }
}

/// A key that can be written in an attribute string: not empty, without spaces or `=`.
pub open spec fn writable_key(k: Seq<char>) -> bool {
    k.len() > 0 && forall|i: int| 0 <= i < k.len() ==> #[trigger] k[i] != ' ' && k[i] != '='
}

/// A value that can be written without quotes: without spaces or `"`.
pub open spec fn writable_value(v: Seq<char>) -> bool {
    forall|i: int| 0 <= i < v.len() ==> #[trigger] v[i] != ' ' && v[i] != '"'
}

/// The text `key=value` of a pair.
pub open spec fn pair_text(p: Pair) -> Seq<char> {
    p.0 + seq!['='] + p.1
}

/// The pairs written one after the other as `key=value`, separated by single spaces.
pub open spec fn joined_pairs(ps: Seq<Pair>) -> Seq<char>
    decreases ps.len(),
{
    if ps.len() == 0 {
        Seq::empty()
    } else if ps.len() == 1 {
        pair_text(ps[0])
    } else {
        joined_pairs(ps.drop_last()) + seq![' '] + pair_text(ps.last())
    }
}

proof fn lemma_scan_is_run(s: Seq<char>)
    ensures
        scan(s) == run(Seq::empty(), Scan::Idle, s),
    decreases s.len(),
{
    if s.len() > 0 {
        lemma_scan_is_run(s.drop_last());
    }
}

proof fn lemma_run_concat(pairs: Seq<Pair>, st: Scan, a: Seq<char>, b: Seq<char>)
    ensures
        run(pairs, st, a + b) == run_on(run(pairs, st, a), b),
    decreases b.len(),
{
    if b.len() == 0 {
        assert(a + b =~= a);
    } else {
        lemma_run_concat(pairs, st, a, b.drop_last());
        assert((a + b).drop_last() =~= a + b.drop_last());
        assert((a + b).last() == b.last());
    }
}

proof fn lemma_run_one(pairs: Seq<Pair>, st: Scan, c: char)
    ensures
        run(pairs, st, seq![c]) == step(pairs, st, c),
{
    assert(seq![c].drop_last() =~= Seq::<char>::empty());
    assert(run(pairs, st, Seq::<char>::empty()) == Ok::<(Seq<Pair>, Scan), Error>((pairs, st)));
    assert(seq![c].last() == c);
}

proof fn lemma_run_key(pairs: Seq<Pair>, k: Seq<char>)
    requires
        writable_key(k),
    ensures
        run(pairs, Scan::Idle, k) == Ok::<(Seq<Pair>, Scan), Error>((pairs, Scan::Key(k))),
    decreases k.len(),
{
    if k.len() == 1 {
        assert(k[0] != ' ' && k[0] != '=');
        assert(k.drop_last() =~= Seq::<char>::empty());
        assert(seq![k[0]] =~= k);
    } else {
        let d = k.drop_last();
        assert forall|i: int| 0 <= i < d.len() implies #[trigger] d[i] != ' ' && d[i] != '=' by {
            assert(d[i] == k[i]);
        }
        lemma_run_key(pairs, d);
        assert(k[k.len() - 1] != ' ' && k[k.len() - 1] != '=');
        assert(d.push(k.last()) =~= k);
    }
}

proof fn lemma_run_value(pairs: Seq<Pair>, k: Seq<char>, v0: Seq<char>, v: Seq<char>)
    requires
        writable_value(v),
    ensures
        run(pairs, Scan::Value(k, v0), v) == Ok::<(Seq<Pair>, Scan), Error>((pairs, Scan::Value(k, v0 + v))),
    decreases v.len(),
{
    if v.len() == 0 {
        assert(v0 + v =~= v0);
    } else {
        let d = v.drop_last();
        assert forall|i: int| 0 <= i < d.len() implies #[trigger] d[i] != ' ' && d[i] != '"' by {
            assert(d[i] == v[i]);
        }
        lemma_run_value(pairs, k, v0, d);
        assert(v[v.len() - 1] != ' ' && v[v.len() - 1] != '"');
        assert((v0 + d).push(v.last()) =~= v0 + v);
    }
}

proof fn lemma_run_pair(pairs: Seq<Pair>, p: Pair)
    requires
        writable_key(p.0),
        writable_value(p.1),
    ensures
        run(pairs, Scan::Idle, pair_text(p)) == Ok::<(Seq<Pair>, Scan), Error>((pairs, Scan::Value(p.0, p.1))),
{
    lemma_run_concat(pairs, Scan::Idle, p.0 + seq!['='], p.1);
    lemma_run_concat(pairs, Scan::Idle, p.0, seq!['=']);
    lemma_run_key(pairs, p.0);
    lemma_run_one(pairs, Scan::Key(p.0), '=');
    lemma_run_value(pairs, p.0, Seq::empty(), p.1);
    assert(Seq::<char>::empty() + p.1 =~= p.1);
}

proof fn lemma_run_joined(ps: Seq<Pair>)
    requires
        ps.len() > 0,
        forall|i: int| 0 <= i < ps.len() ==> writable_key(#[trigger] ps[i].0) && writable_value(ps[i].1),
    ensures
        run(Seq::empty(), Scan::Idle, joined_pairs(ps)) == Ok::<(Seq<Pair>, Scan), Error>(
            (ps.drop_last(), Scan::Value(ps.last().0, ps.last().1)),
        ),
    decreases ps.len(),
{
    if ps.len() == 1 {
        lemma_run_pair(Seq::empty(), ps[0]);
        assert(ps.drop_last() =~= Seq::<Pair>::empty());
    } else {
        let d = ps.drop_last();
        assert forall|i: int| 0 <= i < d.len() implies writable_key(#[trigger] d[i].0) && writable_value(d[i].1) by {
            assert(d[i] == ps[i]);
        }
        lemma_run_joined(d);
        let last = ps[ps.len() - 1];
        lemma_run_concat(Seq::empty(), Scan::Idle, joined_pairs(d) + seq![' '], pair_text(last));
        lemma_run_concat(Seq::empty(), Scan::Idle, joined_pairs(d), seq![' ']);
        lemma_run_one(d.drop_last(), Scan::Value(d.last().0, d.last().1), ' ');
        assert(d.drop_last().push((d.last().0, d.last().1)) =~= d);
        lemma_run_pair(d, last);
    }
}

/// Writing pairs as `key=value` separated by single spaces and parsing the text gives the same
/// pairs back, in the same order, where every key is non-empty and holds neither a space nor
/// `=`, and no value holds a space or `"`.
pub proof fn lemma_parse_joined_pairs(ps: Seq<Pair>)
    requires
        forall|i: int| 0 <= i < ps.len() ==> writable_key(#[trigger] ps[i].0) && writable_value(ps[i].1),
    ensures
        parse_spec(joined_pairs(ps)) == Ok::<Seq<Pair>, Error>(ps),
{
    lemma_scan_is_run(joined_pairs(ps));
    if ps.len() > 0 {
        assert forall|i: int| 0 <= i < ps.len() implies writable_key(#[trigger] ps[i].0) && writable_value(ps[i].1) by {}
        lemma_run_joined(ps);
        assert(ps.drop_last().push((ps.last().0, ps.last().1)) =~= ps);
    } else {
        assert(joined_pairs(ps) =~= Seq::<char>::empty());
        assert(run(Seq::empty(), Scan::Idle, Seq::<char>::empty()) == Ok::<(Seq<Pair>, Scan), Error>((Seq::empty(), Scan::Idle)));
        assert(ps =~= Seq::<Pair>::empty());
    }
}

/// Parses an attribute string into its pairs.
pub fn parse(s: &str) -> (r: Result<Attributes, Error>)
    ensures
        match r {
            Ok(a) => parse_spec(s@) == Ok::<Seq<Pair>, Error>(a@),
            Err(e) => parse_spec(s@) == Err::<Seq<Pair>, Error>(e),
        },
{
    let mut pairs: Vec<(String, String)> = Vec::new();
    let mut mode = Mode::Idle;
    let mut key = String::new();
    let mut value = String::new();
    let ghost text = s@;
    proof {
        assert(text.take(0) =~= Seq::<char>::empty());
        assert(pairs_view(pairs@) =~= Seq::<Pair>::empty());
    }
    for c in it: s.chars()
        invariant
            text == s@,
            it.seq() == text,
            scan(text.take(it.index() as int)) == Ok::<(Seq<Pair>, Scan), Error>(
                (pairs_view(pairs@), position(mode, key@, value@)),
            ),
    {
        let ghost n = it.index() as int;
        proof {
            lemma_scan_next(text, n);
        }
        match mode {
            Mode::Idle => {
                if c == ' ' {
                } else if c == '=' {
                    proof {
                        lemma_error_persists(text, n + 1);
                    }
                    return Err(Error::UnexpectedEndOfString);
                } else {
                    key = String::new();
                    push_char(&mut key, c);
                    mode = Mode::Key;
                    proof {
                        assert(key@ =~= seq![c]);
                    }
                }
            },
            Mode::Key => {
                if c == ' ' {
                    proof {
                        lemma_error_persists(text, n + 1);
                    }
                    return Err(Error::InvalidKeyChar);
                } else if c == '=' {
                    value = String::new();
                    mode = Mode::Value;
                } else {
                    push_char(&mut key, c);
                }
            },
            Mode::Value => {
                if c == ' ' {
                    let ghost before = pairs@;
                    pairs.push((key.clone(), value.clone()));
                    mode = Mode::Idle;
                    proof {
                        assert(pairs_view(pairs@) =~= pairs_view(before).push((key@, value@)));
                    }
                } else if c == '"' {
                    if value.as_str().is_empty() {
                        mode = Mode::Quoted;
                    } else {
                        proof {
                            lemma_error_persists(text, n + 1);
                        }
                        return Err(Error::InvalidValueChar);
                    }
                } else {
                    push_char(&mut value, c);
                }
            },
            Mode::Quoted => {
                if c == '"' {
                    let ghost before = pairs@;
                    pairs.push((key.clone(), value.clone()));
                    mode = Mode::Idle;
                    proof {
                        assert(pairs_view(pairs@) =~= pairs_view(before).push((key@, value@)));
                    }
                } else {
                    push_char(&mut value, c);
                }
            },
        }
    }
    proof {
        assert(text.take(text.len() as int) =~= text);
    }
    match mode {
        Mode::Idle => {},
        Mode::Key => {
            return Err(Error::MissingValue);
        },
        Mode::Value => {
            let ghost before = pairs@;
                    pairs.push((key.clone(), value.clone()));
            proof {
                assert(pairs_view(pairs@) =~= pairs_view(before).push((key@, value@)));
            }
        },
        Mode::Quoted => {
            return Err(Error::UnexpectedEndOfString);
        },
    }
    Ok(Attributes(pairs))
}

} // verus!
