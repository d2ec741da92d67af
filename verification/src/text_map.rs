//! An ordered map from text.

use vstd::prelude::*;
use crate::text;
use crate::text::Relation;

verus! {

/// A map from text to values that keeps its entries in the order of their
/// keys.
#[derive(Debug, PartialEq, Eq)]
pub struct TextMap<V> {
    /// The entries, by increasing key.
    pub entries: Vec<(String, V)>,
}

/// The map a list of entries stands for; of several entries with one key the
/// first counts.
pub open spec fn map_of<V>(entries: Seq<(String, V)>) -> Map<Seq<char>, V>
    decreases entries.len(),
{
    if entries.len() == 0 {
        Map::empty()
    } else {
        map_of(entries.drop_first()).insert(entries.first().0@, entries.first().1)
    }
}

/// Whether each key comes before all the keys behind it.
pub open spec fn keys_increase<V>(entries: Seq<(String, V)>) -> bool {
    forall|i: int, j: int|
        0 <= i < j < entries.len() ==> text::compare_text(
            (#[trigger] entries[i]).0@,
            (#[trigger] entries[j]).0@,
        ) == Relation::Less
}

impl<V> View for TextMap<V> {
    type V = Map<Seq<char>, V>;

    open spec fn view(&self) -> Map<Seq<char>, V> {
        map_of(self.entries@)
    }
}

pub proof fn lemma_has_key<V>(entries: Seq<(String, V)>, key: Seq<char>)
    ensures
        map_of(entries).contains_key(key) <==> exists|i: int|
            0 <= i < entries.len() && (#[trigger] entries[i]).0@ == key,
    decreases entries.len(),
{
    if entries.len() > 0 {
        let rest = entries.drop_first();
        lemma_has_key(rest, key);
        if map_of(rest).contains_key(key) {
            let i = choose|i: int| 0 <= i < rest.len() && (#[trigger] rest[i]).0@ == key;
            assert(entries[i + 1].0@ == key);
        }
        if exists|i: int| 0 <= i < entries.len() && (#[trigger] entries[i]).0@ == key {
            let i = choose|i: int| 0 <= i < entries.len() && (#[trigger] entries[i]).0@ == key;
            if i > 0 {
                assert(rest[i - 1].0@ == key);
            }
        }
    }
}

proof fn lemma_first_entry<V>(entries: Seq<(String, V)>, i: int)
    requires
        0 <= i < entries.len(),
        forall|j: int| 0 <= j < i ==> (#[trigger] entries[j]).0@ != entries[i].0@,
    ensures
        map_of(entries).contains_key(entries[i].0@),
        map_of(entries)[entries[i].0@] == entries[i].1,
    decreases entries.len(),
{
    if i > 0 {
        let rest = entries.drop_first();
        assert(rest[i - 1] == entries[i]);
        assert forall|j: int| 0 <= j < i - 1 implies (#[trigger] rest[j]).0@ != rest[i - 1].0@ by {
            assert(rest[j] == entries[j + 1]);
        }
        lemma_first_entry(rest, i - 1);
        assert(entries[0].0@ != entries[i].0@);
    }
}

proof fn lemma_keys_differ<V>(entries: Seq<(String, V)>)
    requires
        keys_increase(entries),
    ensures
        forall|i: int, j: int|
            0 <= i < entries.len() && 0 <= j < entries.len() && i != j ==> (
            #[trigger] entries[i]).0@ != (#[trigger] entries[j]).0@,
{
    assert forall|i: int, j: int|
        0 <= i < entries.len() && 0 <= j < entries.len() && i != j implies (
    #[trigger] entries[i]).0@ != (#[trigger] entries[j]).0@ by {
        text::lemma_compare_reflexive(entries[i].0@);
    }
}

/// In an ordered list every entry is the one its key finds.
pub proof fn lemma_entries<V>(entries: Seq<(String, V)>)
    requires
        keys_increase(entries),
    ensures
        forall|i: int|
            #![trigger entries[i]]
            0 <= i < entries.len() ==> map_of(entries).contains_key(entries[i].0@) && map_of(
                entries,
            )[entries[i].0@] == entries[i].1,
        forall|key: Seq<char>| #[trigger]
            map_of(entries).contains_key(key) ==> exists|i: int|
                0 <= i < entries.len() && (#[trigger] entries[i]).0@ == key,
{
    lemma_keys_differ(entries);
    assert forall|i: int|
        #![trigger entries[i]]
        0 <= i < entries.len() implies map_of(entries).contains_key(entries[i].0@) && map_of(
        entries,
    )[entries[i].0@] == entries[i].1 by {
        lemma_first_entry(entries, i);
    }
    assert forall|key: Seq<char>| #[trigger] map_of(entries).contains_key(key) implies exists|i: int|
        0 <= i < entries.len() && (#[trigger] entries[i]).0@ == key by {
        lemma_has_key(entries, key);
    }
}

impl<V> TextMap<V> {
    /// Whether the entries are in the order of their keys, each key once.
    pub open spec fn wf(&self) -> bool {
        keys_increase(self.entries@)
    }

    /// An empty map.
    pub fn new() -> (map: TextMap<V>)
        ensures
            map.wf(),
            map@ == Map::<Seq<char>, V>::empty(),
            map.entries@.len() == 0,
    {
        TextMap { entries: Vec::new() }
    }

    /// How many entries there are.
    pub fn len(&self) -> (n: usize)
        ensures
            n == self.entries@.len(),
    {
        self.entries.len()
    }

    /// Whether there is no entry.
    pub fn is_empty(&self) -> (empty: bool)
        ensures
            empty == (self.entries@.len() == 0),
    {
        self.entries.len() == 0
    }

    /// The value of `key`, where it has one.
    pub fn get(&self, key: &str) -> (value: Option<&V>)
        ensures
            match value {
                Some(v) => self@.contains_key(key@) && *v == self@[key@],
                None => !self@.contains_key(key@),
            },
    {
        let mut i: usize = 0;
        while i < self.entries.len()
            invariant
                i <= self.entries@.len(),
                forall|j: int| 0 <= j < i ==> (#[trigger] self.entries@[j]).0@ != key@,
            decreases self.entries.len() - i,
        {
            if text::str_eq(&self.entries[i].0, key) {
                proof {
                    lemma_first_entry(self.entries@, i as int);
                }
                return Some(&self.entries[i].1);
            }
            i += 1;
        }
        proof {
            lemma_has_key(self.entries@, key@);
        }
        None
    }

    /// Whether `key` has a value.
    pub fn contains_key(&self, key: &str) -> (yes: bool)
        ensures
            yes == self@.contains_key(key@),
    {
        self.get(key).is_some()
    }

    /// Gives `key` the value `value`, in place of any it had.
    pub fn insert(&mut self, key: String, value: V)
        requires
            old(self).wf(),
        ensures
            final(self).wf(),
            final(self)@ == old(self)@.insert(key@, value),
    {
        let ghost before = self.entries@;
        proof {
            lemma_entries(before);
        }
        let mut i: usize = 0;
        while i < self.entries.len() && text::compare_str(&self.entries[i].0, &key)
            == Relation::Less
            invariant
                self.entries@ == before,
                i <= before.len(),
                forall|j: int|
                    0 <= j < i ==> text::compare_text((#[trigger] before[j]).0@, key@)
                        == Relation::Less,
            decreases before.len() - i,
        {
            i += 1;
        }
        let present = i < self.entries.len() && text::str_eq(&self.entries[i].0, &key);
        if present {
            let _ = self.entries.remove(i);
        }
        self.entries.insert(i, (key, value));
        proof {
            let after = self.entries@;
            let k = key@;
            let shift: int = if present {
                0
            } else {
                1
            };
            assert forall|m: int| 0 <= m < after.len() implies #[trigger] after[m] == if m < i {
                before[m]
            } else if m == i {
                (key, value)
            } else {
                before[m - shift]
            } by {}
            if !present && i < before.len() {
                if text::compare_text(before[i as int].0@, k) == Relation::Equal {
                    text::lemma_compare_equal(before[i as int].0@, k);
                }
            }
            // Everything behind the new entry has a larger key.
            assert forall|m: int| i < m < after.len() implies text::compare_text(
                k,
                (#[trigger] after[m]).0@,
            ) == Relation::Less by {
                let b = before[i as int].0@;
                text::lemma_compare_flip(b, k);
                let x = after[m].0@;
                if m - shift > i {
                    assert(text::compare_text(before[i as int].0@, before[m - shift].0@)
                        == Relation::Less);
                    if !present {
                        text::lemma_compare_transitive(k, b, x);
                    }
                }
            }
            assert(keys_increase(after)) by {
                assert forall|m: int, n: int| 0 <= m < n < after.len() implies text::compare_text(
                    (#[trigger] after[m]).0@,
                    (#[trigger] after[n]).0@,
                ) == Relation::Less by {
                    if m < i && n > i {
                        assert(before[m] == after[m] && before[n - shift] == after[n]);
                    } else if m < i && n < i {
                        assert(before[m] == after[m] && before[n] == after[n]);
                    } else if m > i {
                        assert(before[m - shift] == after[m] && before[n - shift] == after[n]);
                    } else if n == i {
                        assert(before[m] == after[m]);
                    }
                }
            }
            lemma_entries(after);
            assert(map_of(after) =~= map_of(before).insert(k, value)) by {
                assert(after[i as int].0@ == k);
                assert forall|x: Seq<char>| #[trigger] map_of(after).contains_key(x) <==> map_of(
                    before,
                ).insert(k, value).contains_key(x) by {
                    if map_of(after).contains_key(x) {
                        let m = choose|m: int|
                            0 <= m < after.len() && (#[trigger] after[m]).0@ == x;
                        if m < i {
                            assert(before[m].0@ == x);
                        } else if m > i {
                            assert(before[m - shift].0@ == x);
                        }
                    }
                    if map_of(before).contains_key(x) && x != k {
                        let m = choose|m: int|
                            0 <= m < before.len() && (#[trigger] before[m]).0@ == x;
                        if m < i {
                            assert(after[m].0@ == x);
                        } else {
                            assert(after[m + shift].0@ == x);
                        }
                    }
                }
                assert forall|x: Seq<char>| #[trigger] map_of(after).contains_key(x) implies map_of(
                    after,
                )[x] == map_of(before).insert(k, value)[x] by {
                    let m = choose|m: int| 0 <= m < after.len() && (#[trigger] after[m]).0@ == x;
                    assert(after[m].0@ == x);
                    if m < i {
                        assert(before[m].0@ == x);
                    } else if m > i {
                        assert(before[m - shift].0@ == x);
                    }
                    text::lemma_compare_reflexive(k);
                }
            }
        }
    }
}

proof fn lemma_same_keys<V>(a: Seq<(String, V)>, b: Seq<(String, V)>)
    requires
        keys_increase(a),
        keys_increase(b),
        map_of(a) == map_of(b),
    ensures
        a.len() <= b.len(),
        forall|i: int|
            0 <= i < a.len() ==> i < b.len() && (#[trigger] a[i]).0@ == b[i].0@ && a[i].1 == b[i].1,
{
    lemma_entries(a);
    lemma_entries(b);
    lemma_keys_differ(a);
    assert forall|i: int| 0 <= i < a.len() implies i < b.len() && (#[trigger] a[i]).0@ == b[i].0@
        && a[i].1 == b[i].1 by {
        lemma_same_prefix(a, b, i);
    }
    if a.len() > b.len() {
        assert(a[b.len() as int].0@ == b[b.len() as int].0@);
    }
}

proof fn lemma_same_prefix<V>(a: Seq<(String, V)>, b: Seq<(String, V)>, n: int)
    requires
        keys_increase(a),
        keys_increase(b),
        map_of(a) == map_of(b),
        0 <= n < a.len(),
    ensures
        n < b.len(),
        a[n].0@ == b[n].0@,
        a[n].1 == b[n].1,
    decreases n,
{
    lemma_entries(a);
    lemma_entries(b);
    let ka = a[n].0@;
    assert(map_of(b).contains_key(ka));
    let j = choose|j: int| 0 <= j < b.len() && (#[trigger] b[j]).0@ == ka;
    assert(b[j].0@ == ka);
    text::lemma_compare_reflexive(ka);
    if j < n {
        lemma_same_prefix(a, b, j);
        assert(text::compare_text(a[j].0@, a[n].0@) == Relation::Less);
        assert(false);
    }
    if j > n {
        let kb = b[n].0@;
        assert(map_of(a).contains_key(kb));
        let i = choose|i: int| 0 <= i < a.len() && (#[trigger] a[i]).0@ == kb;
        assert(a[i].0@ == kb);
        text::lemma_compare_reflexive(kb);
        assert(text::compare_text(kb, ka) == Relation::Less);
        if i < n {
            lemma_same_prefix(a, b, i);
            assert(text::compare_text(b[i].0@, b[n].0@) == Relation::Less);
            assert(false);
        } else if i > n {
            assert(text::compare_text(ka, kb) == Relation::Less);
            text::lemma_compare_flip(ka, kb);
            assert(false);
        }
    }
}

/// The entries of a map are determined by what it maps: two maps with the
/// same contents list the same keys and values in the same order.
pub proof fn law_order_is_canonical<V>(a: TextMap<V>, b: TextMap<V>)
    requires
        a.wf(),
        b.wf(),
        a@ == b@,
    ensures
        a.entries@.len() == b.entries@.len(),
        forall|i: int|
            0 <= i < a.entries@.len() ==> (#[trigger] a.entries@[i]).0@ == b.entries@[i].0@
                && a.entries@[i].1 == b.entries@[i].1,
{
    lemma_same_keys(a.entries@, b.entries@);
    lemma_same_keys(b.entries@, a.entries@);
}

/// The order of the keys of a map is determined by which keys it has: two maps
/// with the same keys list them in the same order, each with what it is mapped
/// to.
pub proof fn law_key_order_is_canonical<V>(a: TextMap<V>, b: TextMap<V>)
    requires
        a.wf(),
        b.wf(),
        a@.dom() == b@.dom(),
    ensures
        a.entries@.len() == b.entries@.len(),
        forall|i: int|
            0 <= i < a.entries@.len() ==> {
                let key = (#[trigger] a.entries@[i]).0@;
                &&& b.entries@[i].0@ == key
                &&& a@.contains_key(key)
                &&& a@[key] == a.entries@[i].1
                &&& b@[key] == b.entries@[i].1
            },
{
    let x = Seq::new(a.entries@.len(), |i: int| (a.entries@[i].0, ()));
    let y = Seq::new(b.entries@.len(), |i: int| (b.entries@[i].0, ()));
    assert(keys_increase(x)) by {
        assert forall|i: int, j: int| 0 <= i < j < x.len() implies text::compare_text(
            (#[trigger] x[i]).0@,
            (#[trigger] x[j]).0@,
        ) == Relation::Less by {
            assert(a.entries@[i].0@ == x[i].0@ && a.entries@[j].0@ == x[j].0@);
        }
    }
    assert(keys_increase(y)) by {
        assert forall|i: int, j: int| 0 <= i < j < y.len() implies text::compare_text(
            (#[trigger] y[i]).0@,
            (#[trigger] y[j]).0@,
        ) == Relation::Less by {
            assert(b.entries@[i].0@ == y[i].0@ && b.entries@[j].0@ == y[j].0@);
        }
    }
    assert forall|key: Seq<char>| #[trigger] map_of(x).contains_key(key) == map_of(y).contains_key(
        key,
    ) by {
        lemma_has_key(x, key);
        lemma_has_key(y, key);
        lemma_has_key(a.entries@, key);
        lemma_has_key(b.entries@, key);
        assert(a@.dom().contains(key) == b@.dom().contains(key));
        if map_of(x).contains_key(key) {
            let i = choose|i: int| 0 <= i < x.len() && (#[trigger] x[i]).0@ == key;
            assert(a.entries@[i].0@ == key);
            let j = choose|j: int| 0 <= j < b.entries@.len() && (#[trigger] b.entries@[j]).0@ == key;
            assert(y[j].0@ == key);
        }
        if map_of(y).contains_key(key) {
            let j = choose|j: int| 0 <= j < y.len() && (#[trigger] y[j]).0@ == key;
            assert(b.entries@[j].0@ == key);
            let i = choose|i: int| 0 <= i < a.entries@.len() && (#[trigger] a.entries@[i]).0@ == key;
            assert(x[i].0@ == key);
        }
    }
    assert(map_of(x) =~= map_of(y));
    lemma_same_keys(x, y);
    lemma_same_keys(y, x);
    lemma_entries(a.entries@);
    lemma_entries(b.entries@);
    assert forall|i: int| 0 <= i < a.entries@.len() implies {
        let key = (#[trigger] a.entries@[i]).0@;
        &&& b.entries@[i].0@ == key
        &&& a@.contains_key(key)
        &&& a@[key] == a.entries@[i].1
        &&& b@[key] == b.entries@[i].1
    } by {
        assert(x[i].0@ == y[i].0@);
        assert(b.entries@[i].0@ == y[i].0@);
    }
}

} // verus!
