//! The in-memory key-value backend: each column family is a map from byte
//! keys to byte values, kept as a vector of entries sorted by key in
//! lexicographic byte order.

use vstd::prelude::*;
use vstd::slice::slice_to_vec;

verus! {

/// The outcome of comparing two byte strings.
#[derive(PartialEq, Eq, Structural, Debug, Clone, Copy)]
pub enum Cmp {
    Less,
    Equal,
    Greater,
}

/// The lexicographic order on byte strings: a proper prefix comes first.
pub open spec fn lex_lt(a: Seq<u8>, b: Seq<u8>) -> bool
    decreases a.len(),
{
    if a.len() == 0 {
        b.len() > 0
    } else if b.len() == 0 {
        false
    } else if a[0] != b[0] {
        a[0] < b[0]
    } else {
        lex_lt(a.drop_first(), b.drop_first())
    }
}

pub proof fn lemma_lex_irreflexive(a: Seq<u8>)
    ensures
        !lex_lt(a, a),
    decreases a.len(),
{
    if a.len() > 0 {
        lemma_lex_irreflexive(a.drop_first());
    }
}

pub proof fn lemma_lex_transitive(a: Seq<u8>, b: Seq<u8>, c: Seq<u8>)
    requires
        lex_lt(a, b),
        lex_lt(b, c),
    ensures
        lex_lt(a, c),
    decreases a.len(),
{
    if a.len() > 0 && b.len() > 0 && c.len() > 0 && a[0] == b[0] && b[0] == c[0] {
        lemma_lex_transitive(a.drop_first(), b.drop_first(), c.drop_first());
    }
}

pub proof fn lemma_lex_total(a: Seq<u8>, b: Seq<u8>)
    ensures
        a == b || lex_lt(a, b) || lex_lt(b, a),
    decreases a.len(),
{
    if a.len() > 0 && b.len() > 0 && a[0] == b[0] {
        lemma_lex_total(a.drop_first(), b.drop_first());
        if a.drop_first() == b.drop_first() {
            assert(a == seq![a[0]] + a.drop_first());
            assert(b == seq![b[0]] + b.drop_first());
        }
    } else if a.len() == 0 && b.len() == 0 {
        assert(a == b);
    }
}

pub proof fn lemma_lex_asymmetric(a: Seq<u8>, b: Seq<u8>)
    requires
        lex_lt(a, b),
    ensures
        !lex_lt(b, a),
{
    if lex_lt(b, a) {
        lemma_lex_transitive(a, b, a);
        lemma_lex_irreflexive(a);
    }
}

proof fn lemma_lex_skip(a: Seq<u8>, b: Seq<u8>, i: int)
    requires
        0 <= i < a.len(),
        i < b.len(),
        a[i] == b[i],
    ensures
        lex_lt(a.skip(i), b.skip(i)) == lex_lt(a.skip(i + 1), b.skip(i + 1)),
{
    assert(a.skip(i).drop_first() == a.skip(i + 1));
    assert(b.skip(i).drop_first() == b.skip(i + 1));
}

/// Compares two byte strings in lexicographic order.
pub fn compare_bytes(a: &[u8], b: &[u8]) -> (r: Cmp)
    ensures
        r == Cmp::Less <==> lex_lt(a@, b@),
        r == Cmp::Equal <==> a@ == b@,
        r == Cmp::Greater <==> lex_lt(b@, a@),
{
    let mut i: usize = 0;
    assert(a@.skip(0) == a@ && b@.skip(0) == b@);
    while i < a.len() && i < b.len()
        invariant
            i <= a@.len(),
            i <= b@.len(),
            forall|j: int| 0 <= j < i ==> a@[j] == b@[j],
            lex_lt(a@, b@) == lex_lt(a@.skip(i as int), b@.skip(i as int)),
            lex_lt(b@, a@) == lex_lt(b@.skip(i as int), a@.skip(i as int)),
        decreases a@.len() - i,
    {
        if a[i] != b[i] {
            proof {
                lemma_lex_irreflexive(a@);
                assert(a@[i as int] != b@[i as int]);
                assert(a@ != b@);
            }
            if a[i] < b[i] {
                return Cmp::Less;
            } else {
                return Cmp::Greater;
            }
        }
        proof {
            lemma_lex_skip(a@, b@, i as int);
            lemma_lex_skip(b@, a@, i as int);
        }
        i = i + 1;
    }
    proof {
        lemma_lex_irreflexive(a@);
    }
    if a.len() == b.len() {
        assert(a@ == b@);
        Cmp::Equal
    } else if a.len() < b.len() {
        assert(a@ != b@);
        Cmp::Less
    } else {
        assert(a@ != b@);
        Cmp::Greater
    }
}

/// Whether `p` is a prefix of `k`.
pub open spec fn is_prefix(p: Seq<u8>, k: Seq<u8>) -> bool {
    p.len() <= k.len() && k.take(p.len() as int) == p
}

/// Whether the first `n` bytes of `k` are `p`.
pub fn starts_with(k: &[u8], p: &[u8]) -> (r: bool)
    ensures
        r == is_prefix(p@, k@),
{
    if p.len() > k.len() {
        return false;
    }
    let mut i: usize = 0;
    while i < p.len()
        invariant
            p@.len() <= k@.len(),
            i <= p@.len(),
            forall|j: int| 0 <= j < i ==> k@[j] == p@[j],
        decreases p@.len() - i,
    {
        if k[i] != p[i] {
            assert(k@.take(p@.len() as int)[i as int] != p@[i as int]);
            return false;
        }
        i = i + 1;
    }
    assert(k@.take(p@.len() as int) == p@);
    true
}

/// Whether no key occurs twice among the entries.
pub open spec fn keys_unique(s: Seq<(Seq<u8>, Seq<u8>)>) -> bool {
    forall|i: int, j: int| 0 <= i < s.len() && 0 <= j < s.len() && i != j ==> s[i].0 != s[j].0
}

/// Whether the key occurs among the entries.
pub open spec fn has_key(s: Seq<(Seq<u8>, Seq<u8>)>, k: Seq<u8>) -> bool {
    exists|i: int| 0 <= i < s.len() && s[i].0 == k
}

/// The map that the entries hold.
pub open spec fn entries_map(s: Seq<(Seq<u8>, Seq<u8>)>) -> Map<Seq<u8>, Seq<u8>> {
    Map::new(
        |k: Seq<u8>| has_key(s, k),
        |k: Seq<u8>| s[choose|i: int| 0 <= i < s.len() && s[i].0 == k].1,
    )
}

pub proof fn lemma_entries_map_at(s: Seq<(Seq<u8>, Seq<u8>)>, i: int)
    requires
        keys_unique(s),
        0 <= i < s.len(),
    ensures
        entries_map(s).contains_key(s[i].0),
        entries_map(s)[s[i].0] == s[i].1,
{
    assert(has_key(s, s[i].0));
    let j = choose|j: int| 0 <= j < s.len() && s[j].0 == s[i].0;
    assert(j == i);
}

proof fn lemma_entries_map_insert(s: Seq<(Seq<u8>, Seq<u8>)>, pos: int, k: Seq<u8>, v: Seq<u8>)
    requires
        keys_unique(s),
        !has_key(s, k),
        0 <= pos <= s.len(),
    ensures
        keys_unique(s.insert(pos, (k, v))),
        entries_map(s.insert(pos, (k, v))) == entries_map(s).insert(k, v),
{
    let t = s.insert(pos, (k, v));
    assert(keys_unique(t)) by {
        assert forall|i: int, j: int| 0 <= i < t.len() && 0 <= j < t.len() && i != j implies t[i].0
            != t[j].0 by {
            if i == pos {
                assert(t[j].0 == s[if j < pos { j } else { j - 1 }].0);
            } else if j == pos {
                assert(t[i].0 == s[if i < pos { i } else { i - 1 }].0);
            } else {
                assert(t[i] == s[if i < pos { i } else { i - 1 }]);
                assert(t[j] == s[if j < pos { j } else { j - 1 }]);
            }
        }
    }
    assert forall|x: Seq<u8>| #[trigger] entries_map(t).contains_key(x) <==> entries_map(s).insert(
        k,
        v,
    ).contains_key(x) by {
        if has_key(s, x) {
            let i = choose|i: int| 0 <= i < s.len() && s[i].0 == x;
            let j = if i < pos { i } else { i + 1 };
            assert(t[j] == s[i]);
        }
        if x == k {
            assert(t[pos].0 == k);
        }
        if has_key(t, x) && x != k {
            let j = choose|j: int| 0 <= j < t.len() && t[j].0 == x;
            assert(j != pos);
            let i = if j < pos { j } else { j - 1 };
            assert(s[i] == t[j]);
        }
    }
    assert forall|x: Seq<u8>| #[trigger] entries_map(t).contains_key(x) implies entries_map(t)[x]
        == entries_map(s).insert(k, v)[x] by {
        let j = choose|j: int| 0 <= j < t.len() && t[j].0 == x;
        lemma_entries_map_at(t, j);
        if j != pos {
            let i = if j < pos { j } else { j - 1 };
            assert(s[i] == t[j]);
            lemma_entries_map_at(s, i);
        }
    }
    assert(entries_map(t) =~= entries_map(s).insert(k, v));
}

proof fn lemma_entries_map_update(s: Seq<(Seq<u8>, Seq<u8>)>, pos: int, v: Seq<u8>)
    requires
        keys_unique(s),
        0 <= pos < s.len(),
    ensures
        keys_unique(s.update(pos, (s[pos].0, v))),
        entries_map(s.update(pos, (s[pos].0, v))) == entries_map(s).insert(s[pos].0, v),
{
    let k = s[pos].0;
    let t = s.update(pos, (k, v));
    assert(keys_unique(t)) by {
        assert forall|i: int, j: int| 0 <= i < t.len() && 0 <= j < t.len() && i != j implies t[i].0
            != t[j].0 by {
            assert(t[i].0 == s[i].0 && t[j].0 == s[j].0);
        }
    }
    assert forall|x: Seq<u8>| #[trigger] entries_map(t).contains_key(x) <==> entries_map(s).insert(
        k,
        v,
    ).contains_key(x) by {
        if has_key(s, x) {
            let i = choose|i: int| 0 <= i < s.len() && s[i].0 == x;
            assert(t[i].0 == x);
        }
        if has_key(t, x) {
            let i = choose|i: int| 0 <= i < t.len() && t[i].0 == x;
            assert(s[i].0 == x);
        }
        if x == k {
            assert(t[pos].0 == k);
        }
    }
    assert forall|x: Seq<u8>| #[trigger] entries_map(t).contains_key(x) implies entries_map(t)[x]
        == entries_map(s).insert(k, v)[x] by {
        let j = choose|j: int| 0 <= j < t.len() && t[j].0 == x;
        lemma_entries_map_at(t, j);
        if j != pos {
            assert(s[j] == t[j]);
            lemma_entries_map_at(s, j);
        }
    }
    assert(entries_map(t) =~= entries_map(s).insert(k, v));
}

proof fn lemma_entries_map_remove(s: Seq<(Seq<u8>, Seq<u8>)>, pos: int)
    requires
        keys_unique(s),
        0 <= pos < s.len(),
    ensures
        keys_unique(s.remove(pos)),
        entries_map(s.remove(pos)) == entries_map(s).remove(s[pos].0),
{
    let k = s[pos].0;
    let t = s.remove(pos);
    assert(keys_unique(t)) by {
        assert forall|i: int, j: int| 0 <= i < t.len() && 0 <= j < t.len() && i != j implies t[i].0
            != t[j].0 by {
            assert(t[i] == s[if i < pos { i } else { i + 1 }]);
            assert(t[j] == s[if j < pos { j } else { j + 1 }]);
        }
    }
    assert forall|x: Seq<u8>| #[trigger] entries_map(t).contains_key(x) <==> entries_map(
        s,
    ).remove(k).contains_key(x) by {
        if has_key(s, x) && x != k {
            let i = choose|i: int| 0 <= i < s.len() && s[i].0 == x;
            assert(i != pos);
            let j = if i < pos { i } else { i - 1 };
            assert(t[j] == s[i]);
        }
        if has_key(t, x) {
            let j = choose|j: int| 0 <= j < t.len() && t[j].0 == x;
            let i = if j < pos { j } else { j + 1 };
            assert(s[i] == t[j]);
            assert(i != pos);
        }
    }
    assert forall|x: Seq<u8>| #[trigger] entries_map(t).contains_key(x) implies entries_map(t)[x]
        == entries_map(s).remove(k)[x] by {
        let j = choose|j: int| 0 <= j < t.len() && t[j].0 == x;
        lemma_entries_map_at(t, j);
        let i = if j < pos { j } else { j + 1 };
        assert(s[i] == t[j]);
        lemma_entries_map_at(s, i);
    }
    assert(entries_map(t) =~= entries_map(s).remove(k));
}

proof fn lemma_entries_map_len(s: Seq<(Seq<u8>, Seq<u8>)>)
    requires
        keys_unique(s),
    ensures
        entries_map(s).dom().finite(),
        entries_map(s).dom().len() == s.len(),
    decreases s.len(),
{
    if s.len() == 0 {
        assert(entries_map(s).dom() =~= Set::<Seq<u8>>::empty());
    } else {
        let last = (s.len() - 1) as int;
        let t = s.remove(last);
        lemma_entries_map_remove(s, last);
        lemma_entries_map_len(t);
        lemma_entries_map_at(s, last);
        assert(entries_map(s).dom() =~= entries_map(t).dom().insert(s[last].0));
    }
}

/// What a compaction filter decides for an entry that is written: keep the
/// written value, drop the entry, or store another value in its place.
#[derive(Debug)]
pub enum CompactionAction {
    Keep,
    Remove,
    Replace(Vec<u8>),
}

/// One column family: a map from keys to values, as entries sorted by key.
pub struct Tree {
    entries: Vec<(Vec<u8>, Vec<u8>)>,
}

impl Tree {
    /// The entries, as byte sequences.
    pub closed spec fn ents(self) -> Seq<(Seq<u8>, Seq<u8>)> {
        self.entries@.map_values(|e: (Vec<u8>, Vec<u8>)| (e.0@, e.1@))
    }

    /// Whether the entries are sorted by key, each key coming once.
    pub closed spec fn wf(self) -> bool {
        forall|i: int, j: int|
            0 <= i < j < self.entries@.len() ==> lex_lt(
                #[trigger] self.entries@[i].0@,
                #[trigger] self.entries@[j].0@,
            )
    }

    /// The map from keys to values that the column family holds.
    pub closed spec fn view(self) -> Map<Seq<u8>, Seq<u8>> {
        entries_map(self.ents())
    }

    proof fn lemma_unique(self)
        requires
            self.wf(),
        ensures
            keys_unique(self.ents()),
    {
        assert forall|i: int, j: int|
            0 <= i < self.ents().len() && 0 <= j < self.ents().len() && i != j implies self.ents()[i].0
            != self.ents()[j].0 by {
            if i < j {
                assert(lex_lt(self.entries@[i].0@, self.entries@[j].0@));
                lemma_lex_irreflexive(self.entries@[i].0@);
            } else {
                assert(lex_lt(self.entries@[j].0@, self.entries@[i].0@));
                lemma_lex_irreflexive(self.entries@[j].0@);
            }
        }
    }

    /// The keys of a column family are finitely many.
    pub proof fn lemma_dom_finite(self)
        requires
            self.wf(),
        ensures
            self.view().dom().finite(),
    {
        self.lemma_unique();
        lemma_entries_map_len(self.ents());
    }

    /// An empty column family.
    pub fn new() -> (r: Self)
        ensures
            r.wf(),
            r.view() == Map::<Seq<u8>, Seq<u8>>::empty(),
    {
        let r = Tree { entries: Vec::new() };
        assert(r.view() =~= Map::<Seq<u8>, Seq<u8>>::empty());
        r
    }

    /// The position of the first key that is not below `key`, and whether it is `key`.
    fn find(&self, key: &[u8]) -> (r: (bool, usize))
        requires
            self.wf(),
        ensures
            r.1 <= self.entries@.len(),
            forall|j: int| 0 <= j < r.1 ==> lex_lt(#[trigger] self.entries@[j].0@, key@),
            forall|j: int| r.1 <= j < self.entries@.len() ==> !lex_lt(#[trigger] self.entries@[j].0@, key@),
            r.0 <==> r.1 < self.entries@.len() && self.entries@[r.1 as int].0@ == key@,
            !r.0 ==> forall|j: int| r.1 <= j < self.entries@.len() ==> lex_lt(key@, #[trigger] self.entries@[j].0@),
    {
        let mut lo: usize = 0;
        let mut hi: usize = self.entries.len();
        while lo < hi
            invariant
                self.wf(),
                lo <= hi <= self.entries@.len(),
                forall|j: int| 0 <= j < lo ==> lex_lt(#[trigger] self.entries@[j].0@, key@),
                forall|j: int| hi <= j < self.entries@.len() ==> !lex_lt(#[trigger] self.entries@[j].0@, key@),
            decreases hi - lo,
        {
            let mid = lo + (hi - lo) / 2;
            let c = compare_bytes(self.entries[mid].0.as_slice(), key);
            if c == Cmp::Less {
                assert forall|j: int| 0 <= j < mid + 1 implies lex_lt(#[trigger] self.entries@[j].0@, key@) by {
                    if j < mid {
                        assert(lex_lt(self.entries@[j].0@, self.entries@[mid as int].0@));
                        lemma_lex_transitive(self.entries@[j].0@, self.entries@[mid as int].0@, key@);
                    }
                }
                lo = mid + 1;
            } else {
                assert forall|j: int| mid <= j < self.entries@.len() implies !lex_lt(#[trigger] self.entries@[j].0@, key@) by {
                    if j > mid {
                        assert(lex_lt(self.entries@[mid as int].0@, self.entries@[j].0@));
                        if lex_lt(self.entries@[j].0@, key@) {
                            lemma_lex_transitive(self.entries@[mid as int].0@, self.entries@[j].0@, key@);
                            if c == Cmp::Greater {
                                lemma_lex_asymmetric(key@, self.entries@[mid as int].0@);
                            } else {
                                lemma_lex_irreflexive(key@);
                            }
                        }
                    } else {
                        if c == Cmp::Greater {
                            lemma_lex_asymmetric(key@, self.entries@[mid as int].0@);
                        } else {
                            lemma_lex_irreflexive(key@);
                        }
                    }
                }
                hi = mid;
            }
        }
        let found = if lo < self.entries.len() {
            compare_bytes(self.entries[lo].0.as_slice(), key) == Cmp::Equal
        } else {
            false
        };
        proof {
            if !found {
                assert forall|j: int| lo <= j < self.entries@.len() implies lex_lt(key@, #[trigger] self.entries@[j].0@) by {
                    lemma_lex_total(key@, self.entries@[j].0@);
                    if j > lo {
                        assert(lex_lt(self.entries@[lo as int].0@, self.entries@[j].0@));
                        lemma_lex_total(key@, self.entries@[lo as int].0@);
                        if key@ == self.entries@[j].0@ {
                            lemma_lex_asymmetric(self.entries@[lo as int].0@, self.entries@[j].0@);
                        }
                        if lex_lt(key@, self.entries@[lo as int].0@) {
                            lemma_lex_transitive(key@, self.entries@[lo as int].0@, self.entries@[j].0@);
                        }
                    }
                }
            }
        }
        (found, lo)
    }

    proof fn lemma_view_has(self, key: Seq<u8>, pos: int)
        requires
            self.wf(),
            0 <= pos <= self.entries@.len(),
            forall|j: int| 0 <= j < pos ==> lex_lt(#[trigger] self.entries@[j].0@, key),
            forall|j: int| pos <= j < self.entries@.len() ==> lex_lt(key, #[trigger] self.entries@[j].0@),
        ensures
            !has_key(self.ents(), key),
    {
        if has_key(self.ents(), key) {
            let i = choose|i: int| 0 <= i < self.ents().len() && self.ents()[i].0 == key;
            assert(self.ents()[i].0 == self.entries@[i].0@);
            lemma_lex_irreflexive(key);
        }
    }

    /// The value of the key, if any.
    pub fn get(&self, key: &[u8]) -> (r: Option<Vec<u8>>)
        requires
            self.wf(),
        ensures
            r is Some <==> self.view().contains_key(key@),
            r matches Some(v) ==> v@ == self.view()[key@],
    {
        let (found, pos) = self.find(key);
        proof {
            self.lemma_unique();
        }
        if found {
            proof {
                assert(self.ents()[pos as int] == (self.entries@[pos as int].0@, self.entries@[pos as int].1@));
                lemma_entries_map_at(self.ents(), pos as int);
            }
            Some(slice_to_vec(self.entries[pos].1.as_slice()))
        } else {
            proof {
                self.lemma_view_has(key@, pos as int);
            }
            None
        }
    }

    /// The value of the key, if any, found by scanning the entries; exact
    /// where the entries are sorted.
    pub fn get_any(&self, key: &[u8]) -> (r: Option<Vec<u8>>)
        ensures
            self.wf() ==> (r is Some <==> self.view().contains_key(key@)),
            self.wf() ==> (r matches Some(v) ==> v@ == self.view()[key@]),
    {
        let mut i: usize = 0;
        while i < self.entries.len()
            invariant
                i <= self.entries@.len(),
                forall|j: int| 0 <= j < i ==> #[trigger] self.entries@[j].0@ != key@,
            decreases self.entries@.len() - i,
        {
            if compare_bytes(self.entries[i].0.as_slice(), key) == Cmp::Equal {
                proof {
                    if self.wf() {
                        self.lemma_unique();
                        assert(self.ents()[i as int] == (self.entries@[i as int].0@, self.entries@[i as int].1@));
                        lemma_entries_map_at(self.ents(), i as int);
                    }
                }
                return Some(slice_to_vec(self.entries[i].1.as_slice()));
            }
            i = i + 1;
        }
        proof {
            if has_key(self.ents(), key@) {
                let j = choose|j: int| 0 <= j < self.ents().len() && self.ents()[j].0 == key@;
                assert(self.ents()[j].0 == self.entries@[j].0@);
            }
        }
        None
    }

    /// Whether the key has a value.
    pub fn contains_key(&self, key: &[u8]) -> (r: bool)
        requires
            self.wf(),
        ensures
            r == self.view().contains_key(key@),
    {
        let (found, pos) = self.find(key);
        proof {
            self.lemma_unique();
            if found {
                assert(self.ents()[pos as int].0 == key@);
                lemma_entries_map_at(self.ents(), pos as int);
            } else {
                self.lemma_view_has(key@, pos as int);
            }
        }
        found
    }

    /// Sets the value of the key.
    pub fn insert(&mut self, key: &[u8], value: &[u8])
        requires
            old(self).wf(),
        ensures
            final(self).wf(),
            final(self).view() == old(self).view().insert(key@, value@),
    {
        let (found, pos) = self.find(key);
        proof {
            self.lemma_unique();
        }
        let ghost old_ents = self.ents();
        let ghost old_entries = self.entries@;
        let k = slice_to_vec(key);
        let v = slice_to_vec(value);
        if found {
            self.entries.set(pos, (k, v));
            proof {
                assert(self.ents() =~= old_ents.update(pos as int, (old_ents[pos as int].0, value@)));
                lemma_entries_map_update(old_ents, pos as int, value@);
                assert forall|i: int, j: int| 0 <= i < j < self.entries@.len() implies lex_lt(
                    #[trigger] self.entries@[i].0@,
                    #[trigger] self.entries@[j].0@,
                ) by {
                    assert(old_entries[i].0@ == self.entries@[i].0@);
                    assert(old_entries[j].0@ == self.entries@[j].0@);
                }
            }
        } else {
            self.entries.insert(pos, (k, v));
            proof {
                assert(self.ents() =~= old_ents.insert(pos as int, (key@, value@)));
                self.lemma_view_has_old(old_ents, old_entries, key@, pos as int);
                lemma_entries_map_insert(old_ents, pos as int, key@, value@);
                assert forall|i: int, j: int| 0 <= i < j < self.entries@.len() implies lex_lt(
                    #[trigger] self.entries@[i].0@,
                    #[trigger] self.entries@[j].0@,
                ) by {
                    if i < pos && j < pos {
                        assert(self.entries@[i] == old_entries[i] && self.entries@[j] == old_entries[j]);
                    } else if i < pos && j == pos {
                        assert(self.entries@[i] == old_entries[i]);
                    } else if i < pos {
                        assert(self.entries@[i] == old_entries[i] && self.entries@[j] == old_entries[j - 1]);
                    } else if i == pos {
                        assert(self.entries@[j] == old_entries[j - 1]);
                    } else {
                        assert(self.entries@[i] == old_entries[i - 1] && self.entries@[j] == old_entries[j - 1]);
                    }
                }
            }
        }
    }

    proof fn lemma_view_has_old(
        self,
        old_ents: Seq<(Seq<u8>, Seq<u8>)>,
        old_entries: Seq<(Vec<u8>, Vec<u8>)>,
        key: Seq<u8>,
        pos: int,
    )
        requires
            old_ents == old_entries.map_values(|e: (Vec<u8>, Vec<u8>)| (e.0@, e.1@)),
            0 <= pos <= old_entries.len(),
            forall|j: int| 0 <= j < pos ==> lex_lt(#[trigger] old_entries[j].0@, key),
            forall|j: int| pos <= j < old_entries.len() ==> lex_lt(key, #[trigger] old_entries[j].0@),
        ensures
            !has_key(old_ents, key),
    {
        if has_key(old_ents, key) {
            let i = choose|i: int| 0 <= i < old_ents.len() && old_ents[i].0 == key;
            assert(old_ents[i].0 == old_entries[i].0@);
            lemma_lex_irreflexive(key);
        }
    }

    /// Removes the key; returns whether it had a value.
    pub fn remove(&mut self, key: &[u8]) -> (r: bool)
        requires
            old(self).wf(),
        ensures
            final(self).wf(),
            r == old(self).view().contains_key(key@),
            final(self).view() == old(self).view().remove(key@),
    {
        let (found, pos) = self.find(key);
        proof {
            self.lemma_unique();
        }
        let ghost old_ents = self.ents();
        let ghost old_entries = self.entries@;
        if found {
            self.entries.remove(pos);
            proof {
                assert(self.ents() =~= old_ents.remove(pos as int));
                lemma_entries_map_remove(old_ents, pos as int);
                lemma_entries_map_at(old_ents, pos as int);
                assert forall|i: int, j: int| 0 <= i < j < self.entries@.len() implies lex_lt(
                    #[trigger] self.entries@[i].0@,
                    #[trigger] self.entries@[j].0@,
                ) by {
                    let oi = if i < pos { i } else { i + 1 };
                    let oj = if j < pos { j } else { j + 1 };
                    assert(self.entries@[i] == old_entries[oi] && self.entries@[j] == old_entries[oj]);
                }
            }
            true
        } else {
            proof {
                self.lemma_view_has(key@, pos as int);
                assert(old(self).view().remove(key@) =~= old(self).view());
            }
            false
        }
    }

    /// The number of keys.
    pub fn len(&self) -> (r: usize)
        requires
            self.wf(),
        ensures
            r == self.view().len(),
            self.view().dom().finite(),
    {
        proof {
            self.lemma_unique();
            lemma_entries_map_len(self.ents());
        }
        self.entries.len()
    }

    /// Whether no key has a value.
    pub fn is_empty(&self) -> (r: bool)
        requires
            self.wf(),
        ensures
            r == (self.view().len() == 0),
            self.view().dom().finite(),
    {
        self.len() == 0
    }

    /// Writes a value under the key as a compaction filter decided for it:
    /// the value itself, no entry at all, or the value that replaces it.
    pub fn write_filtered(&mut self, key: &[u8], value: &[u8], action: CompactionAction)
        requires
            old(self).wf(),
        ensures
            final(self).wf(),
            final(self).view() == match action {
                CompactionAction::Keep => old(self).view().insert(key@, value@),
                CompactionAction::Remove => old(self).view().remove(key@),
                CompactionAction::Replace(v) => old(self).view().insert(key@, v@),
            },
    {
        match action {
            CompactionAction::Keep => self.insert(key, value),
            CompactionAction::Remove => {
                self.remove(key);
            },
            CompactionAction::Replace(v) => self.insert(key, v.as_slice()),
        }
    }

    /// Removes every key.
    pub fn clear(&mut self)
        ensures
            final(self).wf(),
            final(self).view() == Map::<Seq<u8>, Seq<u8>>::empty(),
    {
        self.entries.clear();
        assert(self.view() =~= Map::<Seq<u8>, Seq<u8>>::empty());
    }

    /// The keys that start with `prefix`, in increasing order.
    pub fn keys_with_prefix(&self, prefix: &[u8]) -> (r: Vec<Vec<u8>>)
        requires
            self.wf(),
        ensures
            forall|i: int| 0 <= i < r@.len() ==> self.view().contains_key(#[trigger] r@[i]@) && is_prefix(prefix@, r@[i]@),
            forall|k: Seq<u8>| self.view().contains_key(k) && is_prefix(prefix@, k) ==> exists|i: int| 0 <= i < r@.len() && #[trigger] r@[i]@ == k,
            forall|i: int, j: int| 0 <= i < j < r@.len() ==> lex_lt(#[trigger] r@[i]@, #[trigger] r@[j]@),
    {
        proof {
            self.lemma_unique();
        }
        let mut r: Vec<Vec<u8>> = Vec::new();
        let mut i: usize = 0;
        let ghost idx: Seq<int> = Seq::empty();
        while i < self.entries.len()
            invariant
                self.wf(),
                keys_unique(self.ents()),
                i <= self.entries@.len(),
                idx.len() == r@.len(),
                forall|a: int| 0 <= a < r@.len() ==> 0 <= #[trigger] idx[a] < i && r@[a]@ == self.entries@[idx[a]].0@ && is_prefix(prefix@, r@[a]@),
                forall|a: int, b: int| 0 <= a < b < r@.len() ==> #[trigger] idx[a] < #[trigger] idx[b],
                forall|j: int| 0 <= j < i && is_prefix(prefix@, #[trigger] self.entries@[j].0@) ==> exists|a: int| 0 <= a < r@.len() && idx[a] == j,
            decreases self.entries@.len() - i,
        {
            if starts_with(self.entries[i].0.as_slice(), prefix) {
                let k = slice_to_vec(self.entries[i].0.as_slice());
                r.push(k);
                proof {
                    let ghost old_idx = idx;
                    idx = idx.push(i as int);
                    assert forall|j: int| 0 <= j < i + 1 && is_prefix(prefix@, #[trigger] self.entries@[j].0@) implies exists|a: int| 0 <= a < r@.len() && idx[a] == j by {
                        if j == i {
                            assert(idx[r@.len() - 1] == j);
                        } else {
                            let a = choose|a: int| 0 <= a < old_idx.len() && old_idx[a] == j;
                            assert(idx[a] == old_idx[a]);
                        }
                    }
                }
            }
            i = i + 1;
        }
        proof {
            assert forall|a: int| 0 <= a < r@.len() implies self.view().contains_key(#[trigger] r@[a]@) && is_prefix(prefix@, r@[a]@) by {
                assert(self.ents()[idx[a]].0 == r@[a]@);
                lemma_entries_map_at(self.ents(), idx[a]);
            }
            assert forall|k: Seq<u8>| self.view().contains_key(k) && is_prefix(prefix@, k) implies exists|a: int| 0 <= a < r@.len() && #[trigger] r@[a]@ == k by {
                let j = choose|j: int| 0 <= j < self.ents().len() && self.ents()[j].0 == k;
                assert(self.entries@[j].0@ == k);
                let a = choose|a: int| 0 <= a < r@.len() && idx[a] == j;
                assert(r@[a]@ == k);
            }
            assert forall|a: int, b: int| 0 <= a < b < r@.len() implies lex_lt(#[trigger] r@[a]@, #[trigger] r@[b]@) by {
                assert(idx[a] < idx[b]);
            }
        }
        r
    }
}

} // verus!
