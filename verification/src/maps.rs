//! Small last-writer-wins lookup tables, viewed as mathematical maps: one
//! keyed by strings (service names, capability tags, method names) and one
//! keyed by graph handles.

use vstd::prelude::*;
use crate::dep_graph::Index;

verus! {

/// The map denoted by a sequence of entries, later entries overriding earlier
/// ones for the same key.
pub closed spec fn str_map_of<V>(entries: Seq<(String, V)>) -> Map<Seq<char>, V>
    decreases entries.len(),
{
    if entries.len() == 0 {
        Map::empty()
    } else {
        str_map_of(entries.drop_last()).insert(entries.last().0@, entries.last().1)
    }
}

/// A string-keyed lookup table; the view is the map its entries denote, the
/// last writer of a key winning.
pub struct StrMap<V> {
    entries: Vec<(String, V)>,
}

impl<V> View for StrMap<V> {
    type V = Map<Seq<char>, V>;

    closed spec fn view(&self) -> Map<Seq<char>, V> {
        str_map_of(self.entries@)
    }
}

/// A key matched at `i` and repeated nowhere later denotes its value.
proof fn lemma_str_map_of_found<V>(entries: Seq<(String, V)>, k: Seq<char>, i: int)
    requires
        0 <= i < entries.len(),
        entries[i].0@ == k,
        forall|j: int| i < j < entries.len() ==> (#[trigger] entries[j].0@) != k,
    ensures
        str_map_of(entries).dom().contains(k),
        str_map_of(entries)[k] == entries[i].1,
    decreases entries.len(),
{
    if i < entries.len() - 1 {
        lemma_str_map_of_found(entries.drop_last(), k, i);
    }
}

/// A key matching no entry is absent from the denoted map.
proof fn lemma_str_map_of_absent<V>(entries: Seq<(String, V)>, k: Seq<char>)
    requires
        forall|j: int| 0 <= j < entries.len() ==> (#[trigger] entries[j].0@) != k,
    ensures
        !str_map_of(entries).dom().contains(k),
    decreases entries.len(),
{
    if entries.len() > 0 {
        lemma_str_map_of_absent(entries.drop_last(), k);
    }
}

/// Character-by-character string comparison, decided against the views.
fn str_eq(a: &str, b: &str) -> (r: bool)
    ensures
        r == (a@ == b@),
{
    let n = a.unicode_len();
    if n != b.unicode_len() {
        return false;
    }
    for i in 0..n
        invariant
            n == a@.len(),
            n == b@.len(),
            forall|j: int| 0 <= j < i ==> a@[j] == b@[j],
    {
        if a.get_char(i) != b.get_char(i) {
            return false;
        }
    }
    proof {
        assert(a@ =~= b@);
    }
    true
}

impl<V> StrMap<V> {
    /// An empty table.
    pub fn new() -> (m: StrMap<V>)
        ensures
            m@ == Map::<Seq<char>, V>::empty(),
    {
        StrMap { entries: Vec::new() }
    }

    /// Reserve room for `additional` more entries; the contents are unchanged.
    pub fn reserve(&mut self, additional: usize)
        ensures
            final(self)@ == old(self)@,
    {
        self.entries.reserve(additional);
    }

    /// Bind `key` to `value`, overriding any earlier binding of the same key.
    pub fn insert(&mut self, key: String, value: V)
        ensures
            final(self)@ == old(self)@.insert(key@, value),
    {
        let ghost k = key@;
        self.entries.push((key, value));
        proof {
            assert(self.entries@.drop_last() =~= old(self).entries@);
            assert(self.entries@.last().0@ == k);
        }
    }

    /// Look the key up, returning the value bound to it last.
    pub fn get(&self, key: &str) -> (r: Option<&V>)
        ensures
            match r {
                Some(v) => self@.dom().contains(key@) && *v == self@[key@],
                None => !self@.dom().contains(key@),
            },
    {
        let n = self.entries.len();
        let mut i = n;
        while i > 0
            invariant
                i <= n,
                n == self.entries@.len(),
                forall|j: int| i <= j < n ==> (#[trigger] self.entries@[j].0@) != key@,
            decreases i,
        {
            i = i - 1;
            if str_eq(self.entries[i].0.as_str(), key) {
                proof {
                    lemma_str_map_of_found(self.entries@, key@, i as int);
                }
                return Some(&self.entries[i].1);
            }
        }
        proof {
            lemma_str_map_of_absent(self.entries@, key@);
        }
        None
    }

    /// The underlying entry sequence (oldest binding first).
    pub closed spec fn entry_seq(self) -> Seq<(String, V)> {
        self.entries@
    }

    /// The view is the map the entry sequence denotes.
    pub proof fn lemma_view_is_entries(self)
        ensures
            self@ == str_map_of(self.entry_seq()),
    {
    }

    /// Dismantle the table into its entries.
    pub fn into_entries(self) -> (v: Vec<(String, V)>)
        ensures
            v@ == self.entry_seq(),
            str_map_of(v@) == self@,
    {
        let StrMap { entries } = self;
        entries
    }

    /// Rebuild a table from entries (later entries override earlier ones).
    pub fn from_entries(v: Vec<(String, V)>) -> (m: StrMap<V>)
        ensures
            m.entry_seq() == v@,
            m@ == str_map_of(v@),
    {
        StrMap { entries: v }
    }

    /// Whether any binding for the key exists.
    pub fn contains_key(&self, key: &str) -> (b: bool)
        ensures
            b == self@.dom().contains(key@),
    {
        match self.get(key) {
            Some(_) => true,
            None => false,
        }
    }
}

/// Rewriting each entry's value while keeping its key rewrites the denoted
/// map pointwise: the domain stays the same and every value is related to the
/// old one by `rel`.
pub proof fn lemma_str_map_of_values_related<V1, V2>(
    e1: Seq<(String, V1)>,
    e2: Seq<(String, V2)>,
    rel: spec_fn(V1, V2) -> bool,
)
    requires
        e1.len() == e2.len(),
        forall|i: int|
            0 <= i < e1.len() ==> (#[trigger] e2[i]).0@ == e1[i].0@ && rel(e1[i].1, e2[i].1),
    ensures
        str_map_of(e2).dom() == str_map_of(e1).dom(),
        forall|k: Seq<char>|
            str_map_of(e1).dom().contains(k) ==> rel(
                #[trigger] str_map_of(e1)[k],
                str_map_of(e2)[k],
            ),
    decreases e1.len(),
{
    if e1.len() > 0 {
        lemma_str_map_of_values_related(e1.drop_last(), e2.drop_last(), rel);
        assert(str_map_of(e2).dom() =~= str_map_of(e1).dom());
        assert forall|k: Seq<char>| str_map_of(e1).dom().contains(k) implies rel(
            #[trigger] str_map_of(e1)[k],
            str_map_of(e2)[k],
        ) by {
            if k == e1.last().0@ {
                assert(str_map_of(e1)[k] == e1.last().1);
                assert(e2.last().0@ == k);
                assert(str_map_of(e2)[k] == e2.last().1);
            } else {
                assert(str_map_of(e1)[k] == str_map_of(e1.drop_last())[k]);
                assert(str_map_of(e2)[k] == str_map_of(e2.drop_last())[k]);
            }
        }
    }
}

/// The map denoted by a sequence of handle-keyed entries, later entries
/// overriding earlier ones.
pub closed spec fn index_map_of<V>(entries: Seq<(Index, V)>) -> Map<Index, V>
    decreases entries.len(),
{
    if entries.len() == 0 {
        Map::empty()
    } else {
        index_map_of(entries.drop_last()).insert(entries.last().0, entries.last().1)
    }
}

/// A lookup table keyed by graph handles; the view is the map its entries
/// denote, the last writer of a key winning.
pub struct IndexMap<V> {
    entries: Vec<(Index, V)>,
}

impl<V> View for IndexMap<V> {
    type V = Map<Index, V>;

    closed spec fn view(&self) -> Map<Index, V> {
        index_map_of(self.entries@)
    }
}

proof fn lemma_index_map_of_found<V>(entries: Seq<(Index, V)>, k: Index, i: int)
    requires
        0 <= i < entries.len(),
        entries[i].0 == k,
        forall|j: int| i < j < entries.len() ==> (#[trigger] entries[j].0) != k,
    ensures
        index_map_of(entries).dom().contains(k),
        index_map_of(entries)[k] == entries[i].1,
    decreases entries.len(),
{
    if i < entries.len() - 1 {
        lemma_index_map_of_found(entries.drop_last(), k, i);
    }
}

proof fn lemma_index_map_of_absent<V>(entries: Seq<(Index, V)>, k: Index)
    requires
        forall|j: int| 0 <= j < entries.len() ==> (#[trigger] entries[j].0) != k,
    ensures
        !index_map_of(entries).dom().contains(k),
    decreases entries.len(),
{
    if entries.len() > 0 {
        lemma_index_map_of_absent(entries.drop_last(), k);
    }
}

impl<V> IndexMap<V> {
    /// An empty table.
    pub fn new() -> (m: IndexMap<V>)
        ensures
            m@ == Map::<Index, V>::empty(),
    {
        IndexMap { entries: Vec::new() }
    }

    /// Reserve room for `additional` more entries; the contents are unchanged.
    pub fn reserve(&mut self, additional: usize)
        ensures
            final(self)@ == old(self)@,
    {
        self.entries.reserve(additional);
    }

    /// Bind `key` to `value`, overriding any earlier binding of the same key.
    pub fn insert(&mut self, key: Index, value: V)
        ensures
            final(self)@ == old(self)@.insert(key, value),
    {
        self.entries.push((key, value));
        proof {
            assert(self.entries@.drop_last() =~= old(self).entries@);
        }
    }

    /// Look the key up, returning the value bound to it last.
    pub fn get(&self, key: Index) -> (r: Option<&V>)
        ensures
            match r {
                Some(v) => self@.dom().contains(key) && *v == self@[key],
                None => !self@.dom().contains(key),
            },
    {
        let n = self.entries.len();
        let mut i = n;
        while i > 0
            invariant
                i <= n,
                n == self.entries@.len(),
                forall|j: int| i <= j < n ==> (#[trigger] self.entries@[j].0) != key,
            decreases i,
        {
            i = i - 1;
            if self.entries[i].0 == key {
                proof {
                    lemma_index_map_of_found(self.entries@, key, i as int);
                }
                return Some(&self.entries[i].1);
            }
        }
        proof {
            lemma_index_map_of_absent(self.entries@, key);
        }
        None
    }
}

} // verus!
