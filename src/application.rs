use vstd::prelude::*;

verus! {

/// A key and its value, as an application key-value store holds them.
#[derive(Clone, Debug, Default, Hash, PartialEq, Eq, PartialOrd, Ord)]
pub struct Item {
    pub key: String,
    pub value: Vec<u8>,
}

impl Item {
    pub fn new(key: String, value: Vec<u8>) -> (r: Self)
        ensures
            r.key@ == key@,
            r.value@ == value@,
    {
        Self { key, value }
    }

    pub fn key(&self) -> (r: &str)
        ensures
            r@ == self.key@,
    {
        self.key.as_str()
    }

    pub fn value(&self) -> (r: &[u8])
        ensures
            r@ == self.value@,
    {
        self.value.as_slice()
    }
}

/// The character that marks the next one as literal in a `LIKE` pattern.
pub open spec fn escape_mark() -> char {
    '$'
}

/// How one character of a key stands in a `LIKE` pattern: the two wildcard
/// characters `_` and `%`, and the escape mark itself, get the escape mark
/// before them.
pub open spec fn escaped_char(c: char) -> Seq<char> {
    if c == '_' || c == '%' || c == escape_mark() {
        seq![escape_mark(), c]
    } else {
        seq![c]
    }
}

/// A key with every wildcard character escaped, so that a `LIKE` pattern
/// matches it literally.
pub open spec fn escaped(s: Seq<char>) -> Seq<char>
    decreases s.len(),
{
    if s.len() == 0 {
        Seq::empty()
    } else {
        escaped(s.drop_last()) + escaped_char(s.last())
    }
}

/// The `LIKE` pattern that matches exactly the keys that start with `prefix`.
pub open spec fn prefix_pattern_of(prefix: Seq<char>) -> Seq<char> {
    escaped(prefix).push('%')
}

/// Escapes `_`, `%` and `$` in `string` with `$`, for use in a `LIKE`
/// pattern whose escape character is `$`.
pub fn sanitize(string: &str) -> (r: String)
    ensures
        r@ == escaped(string@),
{
    let n = string.unicode_len();
    let mut out = String::new();
    let mut i: usize = 0;
    proof {
        assert(string@.subrange(0, 0) =~= Seq::<char>::empty());
    }
    while i < n
        invariant
            n == string@.len(),
            i <= n,
            out@ == escaped(string@.subrange(0, i as int)),
        decreases n - i,
    {
        let c = string.get_char(i);
        let ghost before = out@;
        if c == '_' {
            out.append("$_");
            proof {
                reveal_strlit("$_");
            }
            assert("$_"@ =~= seq!['$', '_']);
        } else if c == '%' {
            out.append("$%");
            proof {
                reveal_strlit("$%");
            }
            assert("$%"@ =~= seq!['$', '%']);
        } else if c == '$' {
            out.append("$$");
            proof {
                reveal_strlit("$$");
            }
            assert("$$"@ =~= seq!['$', '$']);
        } else {
            let one = string.substring_char(i, i + 1);
            out.append(one);
            assert(one@ =~= seq![c]);
        }
        proof {
            let next = string@.subrange(0, i + 1);
            assert(next.drop_last() =~= string@.subrange(0, i as int));
            assert(next.last() == c);
            assert(out@ =~= before + escaped_char(c));
        }
        i = i + 1;
    }
    proof {
        assert(string@.subrange(0, n as int) =~= string@);
    }
    out
}

/// The `LIKE` pattern, with `$` as its escape character, that selects the
/// keys starting with `key_prefix`.
pub fn prefix_pattern(key_prefix: &str) -> (r: String)
    ensures
        r@ == prefix_pattern_of(key_prefix@),
{
    let mut pattern = sanitize(key_prefix);
    proof {
        reveal_strlit("%");
    }
    pattern.append("%");
    proof {
        assert(pattern@ =~= escaped(key_prefix@).push('%'));
    }
    pattern
}

} // verus!
