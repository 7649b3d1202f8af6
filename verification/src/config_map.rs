//! The configuration mapping: an associative structure from key text to value
//! text, kept sorted by key in ascending lexicographic order, with unique
//! keys. Inserting an existing key overwrites its value.

use vstd::prelude::*;

use crate::text::lemma_str_lt_strict;
use crate::text::lemma_str_lt_trans;
use crate::text::lemma_str_lt_trichotomy;
use crate::text::str_eq;
use crate::text::str_less;
use crate::text::str_lt;

verus! {

/// Entries sorted by key in strictly ascending lexicographic order; the keys
/// are then unique.
pub open spec fn entries_sorted(es: Seq<(Seq<char>, Seq<char>)>) -> bool {
    forall|i: int, j: int|
        0 <= i < j < es.len() ==> str_lt(#[trigger] es[i].0, #[trigger] es[j].0)
}

/// The mapping that a sequence of (key, value) entries denotes, later entries
/// overwriting earlier ones.
pub open spec fn entries_map(es: Seq<(Seq<char>, Seq<char>)>) -> Map<Seq<char>, Seq<char>>
    decreases es.len(),
{
    if es.len() == 0 {
        Map::empty()
    } else {
        entries_map(es.drop_last()).insert(es.last().0, es.last().1)
    }
}

/// A key is in the mapping of `es` exactly when some entry carries it.
pub proof fn lemma_entries_map_contains(es: Seq<(Seq<char>, Seq<char>)>, k: Seq<char>)
    ensures
        entries_map(es).contains_key(k) <==> exists|i: int| 0 <= i < es.len() && es[i].0 == k,
    decreases es.len(),
{
    if es.len() > 0 {
        lemma_entries_map_contains(es.drop_last(), k);
        if entries_map(es).contains_key(k) && es.last().0 != k {
            let i = choose|i: int| 0 <= i < es.drop_last().len() && es.drop_last()[i].0 == k;
            assert(es[i].0 == k);
        }
        if exists|i: int| 0 <= i < es.len() && es[i].0 == k {
            let i = choose|i: int| 0 <= i < es.len() && es[i].0 == k;
            if i < es.len() - 1 {
                assert(es.drop_last()[i].0 == k);
            }
        }
    }
}

/// An entry whose key no later entry repeats gives the key's value.
pub proof fn lemma_entries_map_at(es: Seq<(Seq<char>, Seq<char>)>, i: int)
    requires
        0 <= i < es.len(),
        forall|j: int| i < j < es.len() ==> es[j].0 != es[i].0,
    ensures
        entries_map(es).contains_key(es[i].0),
        entries_map(es)[es[i].0] == es[i].1,
    decreases es.len(),
{
    if i < es.len() - 1 {
        assert forall|j: int| i < j < es.drop_last().len() implies es.drop_last()[j].0
            != es.drop_last()[i].0 by {
            assert(es.drop_last()[j] == es[j]);
        }
        lemma_entries_map_at(es.drop_last(), i);
    }
}

/// Inserting a fresh key at any position inserts it into the mapping.
proof fn lemma_entries_map_insert_at(
    es: Seq<(Seq<char>, Seq<char>)>,
    i: int,
    k: Seq<char>,
    v: Seq<char>,
)
    requires
        0 <= i <= es.len(),
        forall|j: int| 0 <= j < es.len() ==> es[j].0 != k,
    ensures
        entries_map(es.subrange(0, i) + seq![(k, v)] + es.subrange(i, es.len() as int))
            == entries_map(es).insert(k, v),
    decreases es.len(),
{
    let es2 = es.subrange(0, i) + seq![(k, v)] + es.subrange(i, es.len() as int);
    if i == es.len() {
        assert(es2.drop_last() =~= es);
        assert(es2.last() == (k, v));
    } else {
        let d = es.drop_last();
        assert(es2.last() == es.last());
        assert(es2.drop_last() =~= d.subrange(0, i) + seq![(k, v)] + d.subrange(
            i,
            d.len() as int,
        ));
        lemma_entries_map_insert_at(d, i, k, v);
        assert(entries_map(es2) == entries_map(d).insert(k, v).insert(es.last().0, es.last().1));
        assert(entries_map(d).insert(k, v).insert(es.last().0, es.last().1) =~= entries_map(
            d,
        ).insert(es.last().0, es.last().1).insert(k, v));
    }
}

/// Overwriting the entry that carries a key re-inserts that key.
proof fn lemma_entries_map_update_at(es: Seq<(Seq<char>, Seq<char>)>, i: int, v: Seq<char>)
    requires
        0 <= i < es.len(),
        forall|j: int| 0 <= j < es.len() && j != i ==> es[j].0 != es[i].0,
    ensures
        entries_map(es.update(i, (es[i].0, v))) == entries_map(es).insert(es[i].0, v),
    decreases es.len(),
{
    let k = es[i].0;
    let es2 = es.update(i, (k, v));
    if i == es.len() - 1 {
        assert(es2.drop_last() =~= es.drop_last());
        assert(entries_map(es2) == entries_map(es.drop_last()).insert(k, v));
        assert(entries_map(es.drop_last()).insert(k, es[i].1).insert(k, v) =~= entries_map(
            es.drop_last(),
        ).insert(k, v));
    } else {
        let d = es.drop_last();
        assert(es2.last() == es.last());
        assert(es2.drop_last() =~= d.update(i, (k, v)));
        assert forall|j: int| 0 <= j < d.len() && j != i implies d[j].0 != d[i].0 by {
            assert(d[j] == es[j]);
        }
        lemma_entries_map_update_at(d, i, v);
        assert(entries_map(es2) == entries_map(d).insert(k, v).insert(es.last().0, es.last().1));
        assert(entries_map(d).insert(k, v).insert(es.last().0, es.last().1) =~= entries_map(
            d,
        ).insert(es.last().0, es.last().1).insert(k, v));
    }
}

/// Dropping the last entry keeps the entries sorted.
proof fn lemma_sorted_drop_last(es: Seq<(Seq<char>, Seq<char>)>)
    requires
        entries_sorted(es),
        es.len() > 0,
    ensures
        entries_sorted(es.drop_last()),
{
    assert forall|i: int, j: int|
        0 <= i < j < es.drop_last().len() implies str_lt(
        #[trigger] es.drop_last()[i].0,
        #[trigger] es.drop_last()[j].0,
    ) by {
        assert(es.drop_last()[i] == es[i]);
        assert(es.drop_last()[j] == es[j]);
    }
}

/// A sorted entry sequence denotes a mapping with exactly one key per entry.
pub proof fn lemma_entries_map_len(es: Seq<(Seq<char>, Seq<char>)>)
    requires
        entries_sorted(es),
    ensures
        entries_map(es).dom().finite(),
        entries_map(es).dom().len() == es.len(),
    decreases es.len(),
{
    if es.len() == 0 {
        assert(entries_map(es).dom() =~= Set::<Seq<char>>::empty());
    } else {
        let d = es.drop_last();
        let ka = es.last().0;
        lemma_sorted_drop_last(es);
        lemma_entries_map_len(d);
        assert forall|j: int| 0 <= j < d.len() implies d[j].0 != ka by {
            assert(d[j] == es[j]);
            lemma_str_lt_strict(es[j].0, ka);
        }
        lemma_entries_map_contains(d, ka);
        assert(entries_map(es).dom() =~= entries_map(d).dom().insert(ka));
    }
}

/// Sorted entries are determined by the mapping they denote: two sorted entry
/// sequences with the same mapping are the same sequence.
pub proof fn lemma_entries_map_unique(
    a: Seq<(Seq<char>, Seq<char>)>,
    b: Seq<(Seq<char>, Seq<char>)>,
)
    requires
        entries_sorted(a),
        entries_sorted(b),
        entries_map(a) == entries_map(b),
    ensures
        a == b,
    decreases a.len() + b.len(),
{
    if a.len() == 0 && b.len() == 0 {
        assert(a =~= b);
    } else if a.len() == 0 {
        assert(b[b.len() - 1].0 == b.last().0);
        lemma_entries_map_contains(b, b.last().0);
        lemma_entries_map_contains(a, b.last().0);
        assert(false);
    } else if b.len() == 0 {
        assert(a[a.len() - 1].0 == a.last().0);
        lemma_entries_map_contains(a, a.last().0);
        lemma_entries_map_contains(b, a.last().0);
        assert(false);
    } else {
        let ka = a.last().0;
        let kb = b.last().0;
        assert(a[a.len() - 1] == a.last());
        assert(b[b.len() - 1] == b.last());
        if ka != kb {
            lemma_str_lt_trichotomy(ka, kb);
            if str_lt(ka, kb) {
                lemma_entries_map_contains(b, kb);
                lemma_entries_map_contains(a, kb);
                let i = choose|i: int| 0 <= i < a.len() && a[i].0 == kb;
                if i < a.len() - 1 {
                    assert(str_lt(a[i].0, ka));
                    lemma_str_lt_trans(ka, kb, ka);
                    lemma_str_lt_strict(ka, ka);
                }
                assert(false);
            } else {
                lemma_entries_map_contains(a, ka);
                lemma_entries_map_contains(b, ka);
                let i = choose|i: int| 0 <= i < b.len() && b[i].0 == ka;
                if i < b.len() - 1 {
                    assert(str_lt(b[i].0, kb));
                    lemma_str_lt_trans(kb, ka, kb);
                    lemma_str_lt_strict(kb, kb);
                }
                assert(false);
            }
        }
        lemma_entries_map_at(a, a.len() - 1);
        lemma_entries_map_at(b, b.len() - 1);
        assert(a.last().1 == b.last().1);
        assert forall|j: int| 0 <= j < a.drop_last().len() implies a.drop_last()[j].0 != ka by {
            assert(a.drop_last()[j] == a[j]);
            lemma_str_lt_strict(a[j].0, ka);
        }
        assert forall|j: int| 0 <= j < b.drop_last().len() implies b.drop_last()[j].0 != kb by {
            assert(b.drop_last()[j] == b[j]);
            lemma_str_lt_strict(b[j].0, kb);
        }
        lemma_entries_map_contains(a.drop_last(), ka);
        lemma_entries_map_contains(b.drop_last(), kb);
        assert(entries_map(a.drop_last()) =~= entries_map(a).remove(ka));
        assert(entries_map(b.drop_last()) =~= entries_map(b).remove(kb));
        lemma_sorted_drop_last(a);
        lemma_sorted_drop_last(b);
        lemma_entries_map_unique(a.drop_last(), b.drop_last());
        assert(a.len() == b.len());
        assert forall|i: int| 0 <= i < a.len() implies a[i] == b[i] by {
            if i < a.len() - 1 {
                assert(a[i] == a.drop_last()[i]);
                assert(b[i] == b.drop_last()[i]);
            } else {
                assert(a[i] == a.last());
                assert(b[i] == b.last());
                assert(a.last().0 == b.last().0);
                assert(a.last().1 == b.last().1);
            }
        }
        assert(a =~= b);
    }
}

/// An ordered mapping from key text to value text. Keys are unique and the
/// entries are sorted by key in ascending lexicographic order.
pub struct ConfigMap {
    /// The (key, value) entries, sorted by key.
    pub entries: Vec<(String, String)>,
}

impl ConfigMap {
    /// The entries as a ghost sequence of (key, value) character sequences.
    pub open spec fn entries_view(&self) -> Seq<(Seq<char>, Seq<char>)> {
        self.entries.deep_view()
    }

    /// Well-formed: the keys are strictly ascending, hence unique.
    pub open spec fn wf(&self) -> bool {
        entries_sorted(self.entries_view())
    }

    /// An empty mapping.
    pub fn new() -> (m: ConfigMap)
        ensures
            m.wf(),
            m@ == Map::<Seq<char>, Seq<char>>::empty(),
            m.entries_view() == Seq::<(Seq<char>, Seq<char>)>::empty(),
    {
        let m = ConfigMap { entries: Vec::new() };
        proof {
            assert(m.entries_view() =~= Seq::<(Seq<char>, Seq<char>)>::empty());
        }
        m
    }

    /// The number of entries — for a well-formed mapping, the number of keys
    /// in the mapping it denotes.
    pub fn len(&self) -> (n: usize)
        ensures
            n == self.entries_view().len(),
            self.wf() ==> n == self@.dom().len(),
    {
        proof {
            if self.wf() {
                lemma_entries_map_len(self.entries_view());
            }
        }
        self.entries.len()
    }

    /// Inserts a (key, value) pair, overwriting the value if the key is
    /// already present, and keeping the entries sorted by key.
    pub fn insert(&mut self, key: String, value: String)
        requires
            old(self).wf(),
        ensures
            final(self).wf(),
            final(self)@ == old(self)@.insert(key@, value@),
    {
        let ghost es = self.entries_view();
        let n: usize = self.entries.len();
        let mut i: usize = 0;
        while i < n && str_less(self.entries[i].0.as_str(), key.as_str())
            invariant
                i <= n,
                n == es.len(),
                *self == *old(self),
                es == self.entries_view(),
                forall|j: int| 0 <= j < i ==> str_lt(es[j].0, key@),
            decreases n - i,
        {
            i = i + 1;
        }
        proof {
            if i < es.len() {
                lemma_str_lt_trichotomy(es[i as int].0, key@);
            }
        }
        if i < n && str_eq(self.entries[i].0.as_str(), key.as_str()) {
            proof {
                assert forall|j: int| 0 <= j < es.len() && j != i implies es[j].0
                    != es[i as int].0 by {
                    if j < i {
                        lemma_str_lt_strict(es[j].0, es[i as int].0);
                    } else {
                        lemma_str_lt_strict(es[i as int].0, es[j].0);
                    }
                }
                lemma_entries_map_update_at(es, i as int, value@);
            }
            self.entries[i] = (key, value);
            proof {
                assert(self.entries_view() =~= es.update(i as int, (key@, value@)));
            }
        } else {
            proof {
                assert forall|j: int| i <= j < es.len() implies str_lt(key@, es[j].0) by {
                    lemma_str_lt_strict(key@, es[i as int].0);
                    if j > i {
                        lemma_str_lt_trans(key@, es[i as int].0, es[j].0);
                    }
                }
                assert forall|j: int| 0 <= j < es.len() implies es[j].0 != key@ by {
                    if j < i {
                        lemma_str_lt_strict(es[j].0, key@);
                    } else {
                        lemma_str_lt_strict(key@, es[j].0);
                    }
                }
                lemma_entries_map_insert_at(es, i as int, key@, value@);
            }
            self.entries.insert(i, (key, value));
            proof {
                assert(self.entries_view() =~= es.subrange(0, i as int) + seq![(key@, value@)]
                    + es.subrange(i as int, es.len() as int));
            }
        }
    }

    /// Looks a key up, returning its value if the key is present.
    pub fn get<'a>(&'a self, key: &str) -> (r: Option<&'a String>)
        requires
            self.wf(),
        ensures
            match r {
                Option::Some(v) => self@.contains_key(key@) && v@ == self@[key@],
                Option::None => !self@.contains_key(key@),
            },
    {
        let ghost es = self.entries_view();
        let n: usize = self.entries.len();
        let mut i: usize = 0;
        while i < n
            invariant
                i <= n,
                n == es.len(),
                es == self.entries_view(),
                self.wf(),
                forall|j: int| 0 <= j < i ==> es[j].0 != key@,
            decreases n - i,
        {
            if str_eq(self.entries[i].0.as_str(), key) {
                proof {
                    assert forall|j: int| i < j < es.len() implies es[j].0 != es[i as int].0 by {
                        lemma_str_lt_strict(es[i as int].0, es[j].0);
                    }
                    lemma_entries_map_at(es, i as int);
                }
                return Some(&self.entries[i].1);
            }
            i = i + 1;
        }
        proof {
            lemma_entries_map_contains(es, key@);
        }
        None
    }
}

impl View for ConfigMap {
    type V = Map<Seq<char>, Seq<char>>;

    /// The mapping the entries denote.
    open spec fn view(&self) -> Map<Seq<char>, Seq<char>> {
        entries_map(self.entries_view())
    }
}

} // verus!
