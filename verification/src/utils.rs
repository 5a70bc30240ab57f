//! Small utilities: escaping of strings for RDF serializations and a map over
//! two static slices.

use vstd::prelude::*;
use vstd::std_specs::cmp::PartialEqSpec;

verus! {

/// What escaping writes for one character: tab, backspace, line feed,
/// carriage return and form feed become a backslash and a letter; a backslash,
/// a single quote and a double quote get a backslash in front; every other
/// character stands as it is.
pub open spec fn escape_char(c: char) -> Seq<char> {
    if c == '\t' {
        seq!['\\', 't']
    } else if c == '\u{08}' {
        seq!['\\', 'b']
    } else if c == '\n' {
        seq!['\\', 'n']
    } else if c == '\r' {
        seq!['\\', 'r']
    } else if c == '\u{0C}' {
        seq!['\\', 'f']
    } else if c == '\\' || c == '\'' || c == '"' {
        seq!['\\', c]
    } else {
        seq![c]
    }
}

/// The escaped form of a character sequence: each character escaped in turn.
pub open spec fn escaped(s: Seq<char>) -> Seq<char>
    decreases s.len(),
{
    if s.len() == 0 {
        Seq::empty()
    } else {
        escaped(s.drop_last()) + escape_char(s.last())
    }
}

/// Escaping distributes over concatenation.
pub proof fn lemma_escaped_concat(a: Seq<char>, b: Seq<char>)
    ensures
        escaped(a + b) == escaped(a) + escaped(b),
    decreases b.len(),
{
    if b.len() == 0 {
        assert(a + b == a);
        assert(escaped(b) == Seq::<char>::empty());
        assert(escaped(a) + escaped(b) == escaped(a));
    } else {
        lemma_escaped_concat(a, b.drop_last());
        assert((a + b).drop_last() == a + b.drop_last());
        assert((a + b).last() == b.last());
    }
}

/// A string whose characters need no escaping is its own escaped form.
pub proof fn lemma_escaped_plain(s: Seq<char>)
    requires
        forall|i: int| 0 <= i < s.len() ==> escape_char(#[trigger] s[i]) == seq![s[i]],
    ensures
        escaped(s) == s,
    decreases s.len(),
{
    if s.len() > 0 {
        lemma_escaped_plain(s.drop_last());
        assert(escape_char(s[s.len() - 1]) == seq![s[s.len() - 1]]);
        assert(s.drop_last().push(s.last()) == s);
    }
}

/// Appends a character to a string.
#[verifier::external_body]
pub(crate) fn push_char(s: &mut String, c: char)
    ensures
        final(s)@ == old(s)@.push(c),
{
    s.push(c);
}

/// The characters of a string, in order.
pub fn chars_of(s: &str) -> (r: Vec<char>)
    ensures
        r@ == s@,
{
    let n = s.unicode_len();
    let mut r: Vec<char> = Vec::new();
    let mut i: usize = 0;
    while i < n
        invariant
            n == s@.len(),
            i <= n,
            r@ == s@.take(i as int),
        decreases n - i,
    {
        let c = s.get_char(i);
        r.push(c);
        assert(s@.take(i + 1) == s@.take(i as int).push(c));
        i = i + 1;
    }
    assert(s@.take(n as int) == s@);
    r
}

/// Whether the characters `v` are those of `lit`.
pub fn chars_are(v: &Vec<char>, lit: &str) -> (r: bool)
    ensures
        r == (v@ == lit@),
{
    let n = lit.unicode_len();
    if v.len() != n {
        return false;
    }
    let mut i: usize = 0;
    while i < n
        invariant
            n == lit@.len(),
            v@.len() == n,
            i <= n,
            forall|j: int| 0 <= j < i ==> v@[j] == lit@[j],
        decreases n - i,
    {
        if v[i] != lit.get_char(i) {
            return false;
        }
        i = i + 1;
    }
    assert(v@ == lit@);
    true
}

/// What remains to be written of one escaped character.
enum EscapeRdfState {
    Done,
    Char(char),
    Backslash(char),
}

/// The characters of one escaped character, handed out one at a time.
struct EscapeRDF {
    state: EscapeRdfState,
}

impl EscapeRDF {
    /// The characters that this state has yet to hand out.
    spec fn remaining(self) -> Seq<char> {
        match self.state {
            EscapeRdfState::Done => Seq::empty(),
            EscapeRdfState::Char(c) => seq![c],
            EscapeRdfState::Backslash(c) => seq!['\\', c],
        }
    }

    fn new(c: char) -> (r: Self)
        ensures
            r.remaining() == escape_char(c),
    {
        Self {
            state: match c {
                '\t' => EscapeRdfState::Backslash('t'),
                '\u{08}' => EscapeRdfState::Backslash('b'),
                '\n' => EscapeRdfState::Backslash('n'),
                '\r' => EscapeRdfState::Backslash('r'),
                '\u{0C}' => EscapeRdfState::Backslash('f'),
                '\\' | '\'' | '"' => EscapeRdfState::Backslash(c),
                c => EscapeRdfState::Char(c),
            },
        }
    }

    fn next(&mut self) -> (r: Option<char>)
        ensures
            old(self).remaining().len() == 0 ==> r is None && final(self).remaining().len() == 0,
            old(self).remaining().len() > 0 ==> r == Some(old(self).remaining()[0])
                && final(self).remaining() == old(self).remaining().drop_first(),
    {
        match self.state {
            EscapeRdfState::Backslash(c) => {
                self.state = EscapeRdfState::Char(c);
                assert(seq!['\\', c].drop_first() == seq![c]);
                Some('\\')
            },
            EscapeRdfState::Char(c) => {
                self.state = EscapeRdfState::Done;
                assert(seq![c].drop_first() == Seq::<char>::empty());
                Some(c)
            },
            EscapeRdfState::Done => None,
        }
    }

    fn len(&self) -> (r: usize)
        ensures
            r == self.remaining().len(),
    {
        match self.state {
            EscapeRdfState::Done => 0,
            EscapeRdfState::Char(_) => 1,
            EscapeRdfState::Backslash(_) => 2,
        }
    }
}

/// Escaping of strings for RDF serializations.
pub trait Escaper {
    fn escape(&self) -> String;
}

impl Escaper for str {
    fn escape(&self) -> (r: String)
        ensures
            r@ == escaped(self@),
    {
        let chars = chars_of(self);
        let mut out = String::new();
        let mut i: usize = 0;
        while i < chars.len()
            invariant
                chars@ == self@,
                i <= chars.len(),
                out@ == escaped(self@.take(i as int)),
            decreases chars.len() - i,
        {
            let c = chars[i];
            let ghost before = out@;
            let mut e = EscapeRDF::new(c);
            while e.len() > 0
                invariant
                    before + escape_char(c) == out@ + e.remaining(),
                decreases e.remaining().len(),
            {
                let ghost rem = e.remaining();
                let x = e.next();
                match x {
                    Some(x) => {
                        push_char(&mut out, x);
                        assert(rem == seq![x] + e.remaining());
                        assert(out@ + e.remaining() == before + escape_char(c));
                    },
                    None => {},
                }
            }
            assert(e.remaining() == Seq::<char>::empty());
            assert(out@ == before + escape_char(c));
            assert(self@.take(i + 1).drop_last() == self@.take(i as int));
            i = i + 1;
        }
        assert(self@.take(chars.len() as int) == self@);
        out
    }
}

/// The index of the first key that equals `key`, by the keys' `==`.
pub open spec fn first_key_index<K: PartialEq>(keys: Seq<K>, key: K) -> Option<int> {
    if exists|i: int| 0 <= i < keys.len() && keys[i].eq_spec(&key) {
        Some(
            choose|i: int|
                0 <= i < keys.len() && keys[i].eq_spec(&key) && forall|j: int|
                    0 <= j < i ==> !(#[trigger] keys[j].eq_spec(&key)),
        )
    } else {
        None
    }
}

/// A map given by a slice of keys and a slice of values of the same length:
/// the value of a key stands at the key's index.
pub struct StaticSliceMap<K: 'static + Copy + Eq, V: 'static + Copy> {
    keys: &'static [K],
    values: &'static [V],
}

impl<K: 'static + Copy + Eq, V: 'static + Copy> StaticSliceMap<K, V> {
    pub closed spec fn keys(self) -> Seq<K> {
        self.keys@
    }

    pub closed spec fn values(self) -> Seq<V> {
        self.values@
    }

    pub fn new(keys: &'static [K], values: &'static [V]) -> (r: Self)
        requires
            keys@.len() == values@.len(),
        ensures
            r.keys() == keys@,
            r.values() == values@,
    {
        Self { keys, values }
    }

    /// The value of the first key that equals `key`, if there is one.
    pub fn get(&self, key: K) -> (r: Option<V>)
        requires
            self.keys().len() == self.values().len(),
        ensures
            K::obeys_eq_spec() ==> r == (match first_key_index(self.keys(), key) {
                Some(i) => Some(self.values()[i]),
                None => None,
            }),
    {
        let mut i: usize = 0;
        while i < self.keys.len()
            invariant
                self.keys@.len() == self.values@.len(),
                i <= self.keys@.len(),
                K::obeys_eq_spec() ==> forall|j: int| 0 <= j < i ==> !(#[trigger] self.keys@[j].eq_spec(&key)),
            decreases self.keys@.len() - i,
        {
            if self.keys[i] == key {
                proof {
                    if K::obeys_eq_spec() {
                        let fi = first_key_index(self.keys@, key);
                        assert(self.keys@[i as int].eq_spec(&key));
                        let w = choose|w: int|
                            0 <= w < self.keys@.len() && self.keys@[w].eq_spec(&key) && forall|j: int|
                                0 <= j < w ==> !(#[trigger] self.keys@[j].eq_spec(&key));
                        assert(0 <= i < self.keys@.len() && self.keys@[i as int].eq_spec(&key) && forall|j: int|
                                0 <= j < i ==> !(#[trigger] self.keys@[j].eq_spec(&key)));
                        if w < i {
                        } else if w > i {
                            assert(!self.keys@[i as int].eq_spec(&key));
                        }
                        assert(fi == Some(i as int));
                    }
                }
                return Some(self.values[i]);
            }
            i = i + 1;
        }
        None
    }
}

} // verus!
