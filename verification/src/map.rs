//! Ordered object storage: string keys kept in byte order, each at most once.
use vstd::prelude::*;
use vstd::string::StringSliceAdditionalSpecFns;
use vstd::utf8::*;

verus! {

broadcast use vstd::utf8::encode_utf8_decode_utf8;

/// From position `i` on, `a` comes strictly before `b` in byte-wise
/// lexicographic order, the first `i` bytes being equal.
pub open spec fn before_from(a: Seq<u8>, b: Seq<u8>, i: int) -> bool
    decreases a.len() - i,
{
    if i < 0 || i >= b.len() {
        false
    } else if i >= a.len() {
        true
    } else if a[i] != b[i] {
        a[i] < b[i]
    } else {
        before_from(a, b, i + 1)
    }
}

/// `a` comes strictly before `b` in byte-wise lexicographic order.
pub open spec fn bytes_before(a: Seq<u8>, b: Seq<u8>) -> bool {
    before_from(a, b, 0)
}

/// The order of keys: that of their UTF-8 encodings, as for `String`.
pub open spec fn key_before(a: Seq<char>, b: Seq<char>) -> bool {
    bytes_before(encode_utf8(a), encode_utf8(b))
}

proof fn lemma_before_from_transitive(a: Seq<u8>, b: Seq<u8>, c: Seq<u8>, i: int)
    requires
        before_from(a, b, i),
        before_from(b, c, i),
    ensures
        before_from(a, c, i),
    decreases a.len() - i,
{
    if i < a.len() && a[i] == b[i] && b[i] == c[i] {
        lemma_before_from_transitive(a, b, c, i + 1);
    }
}

proof fn lemma_before_from_irreflexive(a: Seq<u8>, i: int)
    ensures
        !before_from(a, a, i),
    decreases a.len() - i,
{
    if 0 <= i < a.len() {
        lemma_before_from_irreflexive(a, i + 1);
    }
}

proof fn lemma_before_from_asymmetric(a: Seq<u8>, b: Seq<u8>, i: int)
    requires
        before_from(a, b, i),
    ensures
        !before_from(b, a, i),
    decreases a.len() - i,
{
    if 0 <= i < a.len() && a[i] == b[i] {
        lemma_before_from_asymmetric(a, b, i + 1);
    }
}

proof fn lemma_before_from_total(a: Seq<u8>, b: Seq<u8>, i: int)
    requires
        0 <= i,
        i <= a.len(),
        i <= b.len(),
        forall|k: int| 0 <= k < i ==> a[k] == b[k],
        !before_from(a, b, i),
        !before_from(b, a, i),
    ensures
        a == b,
    decreases a.len() - i,
{
    if i < a.len() && i < b.len() {
        lemma_before_from_total(a, b, i + 1);
    } else {
        assert(a =~= b);
    }
}

/// Byte order is a strict total order.
pub proof fn lemma_bytes_order(a: Seq<u8>, b: Seq<u8>, c: Seq<u8>)
    ensures
        !bytes_before(a, a),
        bytes_before(a, b) ==> !bytes_before(b, a),
        bytes_before(a, b) && bytes_before(b, c) ==> bytes_before(a, c),
        a == b || bytes_before(a, b) || bytes_before(b, a),
{
    lemma_before_from_irreflexive(a, 0);
    if bytes_before(a, b) {
        lemma_before_from_asymmetric(a, b, 0);
    }
    if bytes_before(a, b) && bytes_before(b, c) {
        lemma_before_from_transitive(a, b, c, 0);
    }
    if !bytes_before(a, b) && !bytes_before(b, a) {
        lemma_before_from_total(a, b, 0);
    }
}

/// Key order is a strict total order, and keys with the same bytes are the
/// same key.
pub proof fn lemma_key_order(a: Seq<char>, b: Seq<char>, c: Seq<char>)
    ensures
        !key_before(a, a),
        key_before(a, b) ==> !key_before(b, a),
        key_before(a, b) && key_before(b, c) ==> key_before(a, c),
        a == b || key_before(a, b) || key_before(b, a),
{
    lemma_bytes_order(encode_utf8(a), encode_utf8(b), encode_utf8(c));
    if encode_utf8(a) == encode_utf8(b) {
        assert(decode_utf8(encode_utf8(a)) == a);
        assert(decode_utf8(encode_utf8(b)) == b);
    }
}

/// How two keys compare.
#[derive(Clone, Copy, Debug, PartialEq, Eq, Structural)]
pub enum KeyOrder {
    Before,
    Same,
    After,
}

/// Compares two byte strings lexicographically.
pub fn compare_bytes(a: &[u8], b: &[u8]) -> (order: KeyOrder)
    ensures
        order == KeyOrder::Before <==> bytes_before(a@, b@),
        order == KeyOrder::Same <==> a@ == b@,
        order == KeyOrder::After <==> bytes_before(b@, a@),
{
    proof {
        lemma_bytes_order(a@, b@, b@);
        lemma_bytes_order(b@, a@, a@);
    }
    let mut i: usize = 0;
    while i < a.len() && i < b.len()
        invariant
            i <= a@.len(),
            i <= b@.len(),
            forall|k: int| 0 <= k < i ==> a@[k] == b@[k],
            bytes_before(a@, b@) == before_from(a@, b@, i as int),
            bytes_before(b@, a@) == before_from(b@, a@, i as int),
        decreases a@.len() - i,
    {
        if a[i] != b[i] {
            if a[i] < b[i] {
                return KeyOrder::Before;
            } else {
                return KeyOrder::After;
            }
        }
        i = i + 1;
    }
    if i < b.len() {
        KeyOrder::Before
    } else if i < a.len() {
        KeyOrder::After
    } else {
        assert(a@ =~= b@);
        KeyOrder::Same
    }
}

/// The keys of a sequence of entries, in order.
pub open spec fn entry_keys<V>(entries: Seq<(String, V)>) -> Seq<Seq<char>> {
    entries.map_values(|entry: (String, V)| entry.0@)
}

/// Each key comes strictly before the next.
pub open spec fn sorted_entries<V>(entries: Seq<(String, V)>) -> bool {
    forall|i: int, j: int|
        0 <= i < j < entries.len() ==> key_before(#[trigger] entries[i].0@, #[trigger] entries[j].0@)
}

/// The map that a sequence of entries stands for.
pub open spec fn entries_map<V>(entries: Seq<(String, V)>) -> Map<Seq<char>, V> {
    Map::new(
        |k: Seq<char>| entry_keys(entries).contains(k),
        |k: Seq<char>| entries[entry_keys(entries).index_of(k)].1,
    )
}

/// The keys a map of entries holds are those of its entries, so there are
/// finitely many.
pub proof fn lemma_entries_map_finite<V>(entries: Seq<(String, V)>)
    ensures
        entries_map(entries).dom().finite(),
        entries_map(entries).dom() == entry_keys(entries).to_set(),
{
    assert(entries_map(entries).dom() =~= entry_keys(entries).to_set());
    vstd::seq_lib::seq_to_set_is_finite(entry_keys(entries));
}

/// In sorted entries, the entry at `i` is what the map holds for its key.
pub proof fn lemma_entries_map_at<V>(entries: Seq<(String, V)>, i: int)
    requires
        sorted_entries(entries),
        0 <= i < entries.len(),
    ensures
        entries_map(entries).contains_key(entries[i].0@),
        entries_map(entries)[entries[i].0@] == entries[i].1,
{
    let keys = entry_keys(entries);
    let k = entries[i].0@;
    assert(keys[i] == k);
    assert(keys.contains(k));
    let j = keys.index_of(k);
    assert(0 <= j < keys.len() && keys[j] == k);
    if j != i {
        lemma_key_order(k, k, k);
        if j < i {
            assert(key_before(entries[j].0@, entries[i].0@));
        } else {
            assert(key_before(entries[i].0@, entries[j].0@));
        }
    }
}

/// A key held by no entry is not in the map.
pub proof fn lemma_entries_map_absent<V>(entries: Seq<(String, V)>, k: Seq<char>)
    requires
        forall|i: int| 0 <= i < entries.len() ==> entries[i].0@ != k,
    ensures
        !entries_map(entries).contains_key(k),
{
    let keys = entry_keys(entries);
    if keys.contains(k) {
        let j = choose|j: int| 0 <= j < keys.len() && keys[j] == k;
        assert(entries[j].0@ == k);
    }
}

/// Every key of the map is held by some entry.
pub proof fn lemma_entries_map_key<V>(entries: Seq<(String, V)>, k: Seq<char>)
    requires
        entries_map(entries).contains_key(k),
    ensures
        exists|i: int| 0 <= i < entries.len() && #[trigger] entries[i].0@ == k,
{
    let keys = entry_keys(entries);
    let j = choose|j: int| 0 <= j < keys.len() && keys[j] == k;
    assert(entries[j].0@ == k);
}

/// Replacing the value of the entry at `i` replaces it in the map.
pub proof fn lemma_update_map<V>(entries: Seq<(String, V)>, i: int, key: String, value: V)
    requires
        sorted_entries(entries),
        0 <= i < entries.len(),
        entries[i].0@ == key@,
    ensures
        sorted_entries(entries.update(i, (key, value))),
        entries_map(entries.update(i, (key, value))) == entries_map(entries).insert(key@, value),
{
    let after = entries.update(i, (key, value));
    assert(sorted_entries(after)) by {
        assert forall|a: int, b: int| 0 <= a < b < after.len() implies key_before(
            #[trigger] after[a].0@,
            #[trigger] after[b].0@,
        ) by {
            assert(after[a].0@ == entries[a].0@);
            assert(after[b].0@ == entries[b].0@);
        }
    }
    let m = entries_map(entries).insert(key@, value);
    assert forall|k: Seq<char>| #[trigger] entries_map(after).contains_key(k) <==> m.contains_key(k) by {
        if entries_map(after).contains_key(k) {
            lemma_entries_map_key(after, k);
            let j = choose|j: int| 0 <= j < after.len() && #[trigger] after[j].0@ == k;
            if j != i {
                lemma_entries_map_at(entries, j);
            }
        }
        if m.contains_key(k) && k != key@ {
            lemma_entries_map_key(entries, k);
            let j = choose|j: int| 0 <= j < entries.len() && #[trigger] entries[j].0@ == k;
            lemma_entries_map_at(after, j);
        }
        if k == key@ {
            lemma_entries_map_at(after, i);
        }
    }
    assert forall|k: Seq<char>| #[trigger] entries_map(after).contains_key(k) implies entries_map(
        after,
    )[k] == m[k] by {
        lemma_entries_map_key(after, k);
        let j = choose|j: int| 0 <= j < after.len() && #[trigger] after[j].0@ == k;
        lemma_entries_map_at(after, j);
        if j != i {
            lemma_entries_map_at(entries, j);
            lemma_key_order(k, k, k);
            if j < i {
                assert(key_before(after[j].0@, after[i].0@));
            } else {
                assert(key_before(after[i].0@, after[j].0@));
            }
        }
    }
    assert(entries_map(after) =~= m);
}

/// Inserting a new entry at its place adds its key to the map.
pub proof fn lemma_insert_map<V>(entries: Seq<(String, V)>, p: int, key: String, value: V)
    requires
        sorted_entries(entries.insert(p, (key, value))),
        0 <= p <= entries.len(),
    ensures
        entries_map(entries.insert(p, (key, value))) == entries_map(entries).insert(key@, value),
{
    let after = entries.insert(p, (key, value));
    assert(sorted_entries(entries)) by {
        assert forall|a: int, b: int| 0 <= a < b < entries.len() implies key_before(
            #[trigger] entries[a].0@,
            #[trigger] entries[b].0@,
        ) by {
            let a2 = if a < p { a } else { a + 1 };
            let b2 = if b < p { b } else { b + 1 };
            assert(after[a2] == entries[a]);
            assert(after[b2] == entries[b]);
        }
    }
    let m = entries_map(entries).insert(key@, value);
    assert forall|k: Seq<char>| #[trigger] entries_map(after).contains_key(k) <==> m.contains_key(k) by {
        if entries_map(after).contains_key(k) {
            lemma_entries_map_key(after, k);
            let j = choose|j: int| 0 <= j < after.len() && #[trigger] after[j].0@ == k;
            if j < p {
                assert(after[j] == entries[j]);
                lemma_entries_map_at(entries, j);
            } else if j > p {
                assert(after[j] == entries[j - 1]);
                lemma_entries_map_at(entries, j - 1);
            }
        }
        if m.contains_key(k) && k != key@ {
            lemma_entries_map_key(entries, k);
            let j = choose|j: int| 0 <= j < entries.len() && #[trigger] entries[j].0@ == k;
            let j2 = if j < p { j } else { j + 1 };
            assert(after[j2] == entries[j]);
            lemma_entries_map_at(after, j2);
        }
        if k == key@ {
            lemma_entries_map_at(after, p);
        }
    }
    assert forall|k: Seq<char>| #[trigger] entries_map(after).contains_key(k) implies entries_map(
        after,
    )[k] == m[k] by {
        lemma_entries_map_key(after, k);
        let j = choose|j: int| 0 <= j < after.len() && #[trigger] after[j].0@ == k;
        lemma_entries_map_at(after, j);
        if j < p {
            assert(after[j] == entries[j]);
            lemma_entries_map_at(entries, j);
            lemma_key_order(k, k, k);
            assert(key_before(after[j].0@, after[p].0@));
        } else if j > p {
            assert(after[j] == entries[j - 1]);
            lemma_entries_map_at(entries, j - 1);
            lemma_key_order(k, k, k);
            assert(key_before(after[p].0@, after[j].0@));
        }
    }
    assert(entries_map(after) =~= m);
}

/// Removing the entry at `i` removes its key from the map.
pub proof fn lemma_remove_map<V>(entries: Seq<(String, V)>, i: int)
    requires
        sorted_entries(entries),
        0 <= i < entries.len(),
    ensures
        sorted_entries(entries.remove(i)),
        entries_map(entries.remove(i)) == entries_map(entries).remove(entries[i].0@),
{
    let after = entries.remove(i);
    let key = entries[i].0@;
    assert(sorted_entries(after)) by {
        assert forall|a: int, b: int| 0 <= a < b < after.len() implies key_before(
            #[trigger] after[a].0@,
            #[trigger] after[b].0@,
        ) by {
            let a2 = if a < i { a } else { a + 1 };
            let b2 = if b < i { b } else { b + 1 };
            assert(after[a] == entries[a2]);
            assert(after[b] == entries[b2]);
        }
    }
    let m = entries_map(entries).remove(key);
    assert forall|k: Seq<char>| #[trigger] entries_map(after).contains_key(k) <==> m.contains_key(k) by {
        if entries_map(after).contains_key(k) {
            lemma_entries_map_key(after, k);
            let j = choose|j: int| 0 <= j < after.len() && #[trigger] after[j].0@ == k;
            let j2 = if j < i { j } else { j + 1 };
            assert(after[j] == entries[j2]);
            lemma_entries_map_at(entries, j2);
            lemma_key_order(k, k, k);
            if j2 < i {
                assert(key_before(entries[j2].0@, entries[i].0@));
            } else {
                assert(key_before(entries[i].0@, entries[j2].0@));
            }
        }
        if m.contains_key(k) {
            lemma_entries_map_key(entries, k);
            let j = choose|j: int| 0 <= j < entries.len() && #[trigger] entries[j].0@ == k;
            if j < i {
                assert(after[j] == entries[j]);
                lemma_entries_map_at(after, j);
            } else if j > i {
                assert(after[j - 1] == entries[j]);
                lemma_entries_map_at(after, j - 1);
            }
        }
    }
    assert forall|k: Seq<char>| #[trigger] entries_map(after).contains_key(k) implies entries_map(
        after,
    )[k] == m[k] by {
        lemma_entries_map_key(after, k);
        let j = choose|j: int| 0 <= j < after.len() && #[trigger] after[j].0@ == k;
        lemma_entries_map_at(after, j);
        let j2 = if j < i { j } else { j + 1 };
        assert(after[j] == entries[j2]);
        lemma_entries_map_at(entries, j2);
    }
    assert(entries_map(after) =~= m);
}

/// Ordered object storage keyed by strings.
///
/// The keys are kept in byte order and no key occurs twice, so iteration
/// visits keys in the same order as a `BTreeMap<String, _>`. Keys and values
/// are held side by side at the same positions.
///
/// The entries are not held in std's `BTreeMap`: vstd's specification of it
/// holds only for key types with an ordering model, and `String` has none.
/// With `String` keys, not even that a map holds one entry after one insert
/// into an empty map can be proved; with `u64` keys it can. Keeping the order
/// as this type's invariant lets every operation state what it does to the
/// map.
#[derive(Debug, PartialEq)]
pub struct ObjectMap<V> {
    keys: Vec<String>,
    values: Vec<V>,
}

impl<V> View for ObjectMap<V> {
    type V = Map<Seq<char>, V>;

    closed spec fn view(&self) -> Map<Seq<char>, V> {
        entries_map(self.entries())
    }
}

impl<V> ObjectMap<V> {
    #[verifier::type_invariant]
    spec fn sorted(&self) -> bool {
        &&& self.keys@.len() == self.values@.len()
        &&& forall|i: int, j: int|
            0 <= i < j < self.keys@.len() ==> key_before(
                #[trigger] self.keys@[i]@,
                #[trigger] self.keys@[j]@,
            )
    }

    proof fn lemma_sorted(&self)
        requires
            self.sorted(),
        ensures
            sorted_entries(self.entries()),
            self.entries().len() == self.keys@.len(),
            forall|i: int| 0 <= i < self.keys@.len() ==> #[trigger] self.entries()[i] == (self.keys@[i], self.values@[i]),
    {
        assert forall|i: int, j: int| 0 <= i < j < self.entries().len() implies key_before(
            #[trigger] self.entries()[i].0@,
            #[trigger] self.entries()[j].0@,
        ) by {
            assert(self.keys@[i]@ == self.entries()[i].0@);
        }
    }

    /// The entries in iteration order.
    pub closed spec fn entries(&self) -> Seq<(String, V)> {
        Seq::new(self.keys@.len(), |i: int| (self.keys@[i], self.values@[i]))
    }

    /// The keys in iteration order.
    pub open spec fn keys(&self) -> Seq<Seq<char>> {
        entry_keys(self.entries())
    }

    /// An empty map.
    pub fn new() -> (map: Self)
        ensures
            map@ == Map::<Seq<char>, V>::empty(),
            map.entries() == Seq::<(String, V)>::empty(),
    {
        let map = ObjectMap { keys: Vec::new(), values: Vec::new() };
        assert(map.entries() =~= Seq::<(String, V)>::empty());
        assert(map@ =~= Map::<Seq<char>, V>::empty());
        map
    }

    /// The first position whose key's bytes do not come before `target`.
    fn lower_bound(&self, target: &[u8]) -> (position: usize)
        ensures
            position <= self.entries().len(),
            forall|i: int|
                0 <= i < position ==> bytes_before(encode_utf8(self.entries()[i].0@), target@),
            forall|i: int|
                position <= i < self.entries().len() ==> !bytes_before(
                    encode_utf8(self.entries()[i].0@),
                    target@,
                ),
    {
        proof {
            use_type_invariant(self);
            self.lemma_sorted();
        }
        let mut low: usize = 0;
        let mut high: usize = self.keys.len();
        while low < high
            invariant
                low <= high <= self.entries().len(),
                self.keys@.len() == self.entries().len(),
                sorted_entries(self.entries()),
                forall|i: int|
                    0 <= i < low ==> bytes_before(encode_utf8(self.entries()[i].0@), target@),
                forall|i: int|
                    high <= i < self.entries().len() ==> !bytes_before(
                        encode_utf8(self.entries()[i].0@),
                        target@,
                    ),
            decreases high - low,
        {
            let middle = low + (high - low) / 2;
            let probe = self.keys[middle].as_str().as_bytes();
            assert(self.entries()[middle as int].0 == self.keys@[middle as int]);
            let order = compare_bytes(probe, target);
            if order == KeyOrder::Before {
                proof {
                    assert forall|i: int| 0 <= i <= middle implies bytes_before(
                        encode_utf8(self.entries()[i].0@),
                        target@,
                    ) by {
                        if i < middle {
                            assert(key_before(
                                self.entries()[i].0@,
                                self.entries()[middle as int].0@,
                            ));
                            lemma_bytes_order(
                                encode_utf8(self.entries()[i].0@),
                                encode_utf8(self.entries()[middle as int].0@),
                                target@,
                            );
                        }
                    }
                }
                low = middle + 1;
            } else {
                proof {
                    assert forall|i: int| middle <= i < self.entries().len() implies !bytes_before(
                        encode_utf8(self.entries()[i].0@),
                        target@,
                    ) by {
                        if i > middle && bytes_before(encode_utf8(self.entries()[i].0@), target@) {
                            assert(key_before(
                                self.entries()[middle as int].0@,
                                self.entries()[i].0@,
                            ));
                            lemma_bytes_order(
                                encode_utf8(self.entries()[middle as int].0@),
                                encode_utf8(self.entries()[i].0@),
                                target@,
                            );
                        }
                    }
                }
                high = middle;
            }
        }
        low
    }

    /// Finds the position of the key whose UTF-8 bytes are `target`.
    fn find_bytes(&self, target: &[u8]) -> (found: Option<usize>)
        ensures
            match found {
                Some(i) => i < self.entries().len() && encode_utf8(self.entries()[i as int].0@)
                    == target@,
                None => forall|i: int|
                    0 <= i < self.entries().len() ==> encode_utf8(#[trigger] self.entries()[i].0@)
                        != target@,
            },
    {
        proof {
            use_type_invariant(self);
            self.lemma_sorted();
        }
        let position = self.lower_bound(target);
        if position < self.keys.len() {
            let probe = self.keys[position].as_str().as_bytes();
            assert(self.entries()[position as int].0 == self.keys@[position as int]);
            if compare_bytes(probe, target) == KeyOrder::Same {
                return Some(position);
            }
        }
        proof {
            assert forall|i: int| 0 <= i < self.entries().len() implies encode_utf8(
                #[trigger] self.entries()[i].0@,
            ) != target@ by {
                lemma_bytes_order(target@, target@, target@);
                if i > position && encode_utf8(self.entries()[i].0@) == target@ {
                    assert(key_before(self.entries()[position as int].0@, self.entries()[i].0@));
                    lemma_bytes_order(
                        encode_utf8(self.entries()[position as int].0@),
                        target@,
                        target@,
                    );
                }
                if i == position {
                    assert(self.entries()[i].0 == self.keys@[i]);
                }
            }
        }
        None
    }

    /// Finds the position of `key`, if the map holds it.
    fn find(&self, key: &str) -> (found: Option<usize>)
        ensures
            match found {
                Some(i) => i < self.entries().len() && self.entries()[i as int].0@ == key@,
                None => !self@.contains_key(key@),
            },
    {
        let found = self.find_bytes(key.as_bytes());
        proof {
            match found {
                Some(i) => {
                    assert(decode_utf8(encode_utf8(self.entries()[i as int].0@))
                        == self.entries()[i as int].0@);
                    assert(decode_utf8(encode_utf8(key@)) == key@);
                },
                None => {
                    assert forall|i: int| 0 <= i < self.entries().len() implies self.entries()[i].0@
                        != key@ by {
                        assert(encode_utf8(self.entries()[i].0@) != encode_utf8(key@));
                    }
                    lemma_entries_map_absent(self.entries(), key@);
                },
            }
        }
        found
    }

    /// The value held for the key whose UTF-8 bytes are `key`.
    pub fn get_bytes(&self, key: &[u8]) -> (value: Option<&V>)
        ensures
            match value {
                Some(v) => valid_utf8(key@) && self@.contains_key(decode_utf8(key@)) && *v
                    == self@[decode_utf8(key@)],
                None => !(valid_utf8(key@) && self@.contains_key(decode_utf8(key@))),
            },
    {
        proof {
            use_type_invariant(self);
            self.lemma_sorted();
        }
        match self.find_bytes(key) {
            Some(i) => {
                proof {
                    lemma_entries_map_at(self.entries(), i as int);
                    encode_utf8_valid_utf8(self.entries()[i as int].0@);
                    assert(decode_utf8(key@) == self.entries()[i as int].0@);
                }
                Some(&self.values[i])
            },
            None => {
                proof {
                    if valid_utf8(key@) && self@.contains_key(decode_utf8(key@)) {
                        lemma_entries_map_key(self.entries(), decode_utf8(key@));
                        let j = choose|j: int|
                            0 <= j < self.entries().len() && #[trigger] self.entries()[j].0@
                                == decode_utf8(key@);
                        decode_utf8_encode_utf8(key@);
                        assert(encode_utf8(self.entries()[j].0@) == key@);
                    }
                }
                None
            },
        }
    }

    /// The value held for `key`.
    pub fn get(&self, key: &str) -> (value: Option<&V>)
        ensures
            match value {
                Some(v) => self@.contains_key(key@) && *v == self@[key@],
                None => !self@.contains_key(key@),
            },
    {
        proof {
            use_type_invariant(self);
            self.lemma_sorted();
        }
        match self.find(key) {
            Some(i) => {
                proof {
                    lemma_entries_map_at(self.entries(), i as int);
                }
                Some(&self.values[i])
            },
            None => None,
        }
    }

    /// A mutable reference to the value held for `key`.
    pub fn get_mut(&mut self, key: &str) -> (value: Option<&mut V>)
        ensures
            match value {
                Some(v) => {
                    &&& old(self)@.contains_key(key@)
                    &&& *v == old(self)@[key@]
                    &&& final(self)@ == old(self)@.insert(key@, *final(v))
                },
                None => !old(self)@.contains_key(key@) && final(self)@ == old(self)@,
            },
    {
        proof {
            use_type_invariant(&*self);
            self.lemma_sorted();
        }
        match self.find(key) {
            None => None,
            Some(i) => {
                proof {
                    lemma_entries_map_at(self.entries(), i as int);
                }
                Some(self.value_at(i))
            },
        }
    }

    fn value_at(&mut self, i: usize) -> (value: &mut V)
        requires
            i < old(self).entries().len(),
        ensures
            *value == old(self).entries()[i as int].1,
            final(self).entries() == old(self).entries().update(
                i as int,
                (old(self).entries()[i as int].0, *final(value)),
            ),
            final(self)@ == old(self)@.insert(old(self).entries()[i as int].0@, *final(value)),
    {
        proof {
            use_type_invariant(&*self);
            self.lemma_sorted();
            let e = old(self).entries();
            assert forall|v: V| #[trigger] entries_map(e.update(i as int, (e[i as int].0, v)))
                == entries_map(e).insert(e[i as int].0@, v) by {
                lemma_update_map(e, i as int, e[i as int].0, v);
            }
        }
        &mut self.values[i]
    }

    /// A mutable reference to the value held for the key whose UTF-8 bytes
    /// are `key`.
    pub fn get_mut_bytes(&mut self, key: &[u8]) -> (value: Option<&mut V>)
        ensures
            match value {
                Some(v) => {
                    &&& valid_utf8(key@)
                    &&& old(self)@.contains_key(decode_utf8(key@))
                    &&& *v == old(self)@[decode_utf8(key@)]
                    &&& final(self)@ == old(self)@.insert(decode_utf8(key@), *final(v))
                },
                None => !(valid_utf8(key@) && old(self)@.contains_key(decode_utf8(key@)))
                    && *final(self) == *old(self),
            },
    {
        proof {
            use_type_invariant(&*self);
            self.lemma_sorted();
        }
        match self.find_bytes(key) {
            Some(i) => {
                proof {
                    lemma_entries_map_at(self.entries(), i as int);
                    encode_utf8_valid_utf8(self.entries()[i as int].0@);
                    assert(decode_utf8(key@) == self.entries()[i as int].0@);
                }
                Some(self.value_at(i))
            },
            None => {
                proof {
                    if valid_utf8(key@) && self@.contains_key(decode_utf8(key@)) {
                        lemma_entries_map_key(self.entries(), decode_utf8(key@));
                        let j = choose|j: int|
                            0 <= j < self.entries().len() && #[trigger] self.entries()[j].0@
                                == decode_utf8(key@);
                        decode_utf8_encode_utf8(key@);
                        assert(encode_utf8(self.entries()[j].0@) == key@);
                    }
                }
                None
            },
        }
    }

    /// Inserts `value` under `key`, giving back the value it replaces.
    pub fn insert(&mut self, key: String, value: V) -> (previous: Option<V>)
        ensures
            final(self)@ == old(self)@.insert(key@, value),
            final(self)@.dom().finite(),
            final(self)@.len() == if old(self)@.contains_key(key@) {
                old(self)@.len()
            } else {
                old(self)@.len() + 1
            },
            match previous {
                Some(v) => old(self)@.contains_key(key@) && v == old(self)@[key@],
                None => !old(self)@.contains_key(key@),
            },
    {
        proof {
            lemma_entries_map_finite(self.entries());
            crate::laws::law_insert_count(self@, key@, value);
        }
        proof {
            use_type_invariant(&*self);
            self.lemma_sorted();
        }
        let position = self.lower_bound(key.as_str().as_bytes());
        match self.find(key.as_str()) {
            Some(i) => {
                proof {
                    lemma_entries_map_at(self.entries(), i as int);
                }
                let slot = self.value_at(i);
                let mut previous = value;
                std::mem::swap(slot, &mut previous);
                Some(previous)
            },
            None => {
                let ghost before = self.entries();
                let ghost k = key@;
                let mut taken = ObjectMap { keys: Vec::new(), values: Vec::new() };
                std::mem::swap(&mut taken, self);
                let ObjectMap { mut keys, mut values } = taken;
                proof {
                    lemma_key_order(k, k, k);
                    assert forall|a: int| 0 <= a < before.len() implies before[a].0@ != k by {
                        lemma_entries_map_at(before, a);
                    }
                    assert forall|a: int, b: int|
                        0 <= a < b < before.insert(position as int, (key, value)).len() implies key_before(
                        #[trigger] before.insert(position as int, (key, value))[a].0@,
                        #[trigger] before.insert(position as int, (key, value))[b].0@,
                    ) by {
                        let s = before.insert(position as int, (key, value));
                        if a < position && b == position {
                        } else if a == position && b > position {
                            assert(s[b] == before[b - 1]);
                            assert(!key_before(before[b - 1].0@, k));
                            lemma_key_order(k, before[b - 1].0@, k);
                        } else if a < position && b > position {
                            assert(s[b] == before[b - 1]);
                        } else if a > position {
                            assert(s[a] == before[a - 1]);
                            assert(s[b] == before[b - 1]);
                        }
                    }
                    lemma_insert_map(before, position as int, key, value);
                }
                keys.insert(position, key);
                values.insert(position, value);
                proof {
                    let after = before.insert(position as int, (key, value));
                    assert forall|a: int| 0 <= a < after.len() implies #[trigger] after[a] == (keys@[a], values@[a]) by {
                        if a < position {
                            assert(after[a] == before[a]);
                        } else if a > position {
                            assert(after[a] == before[a - 1]);
                        }
                    }
                    assert forall|a: int, b: int| 0 <= a < b < keys@.len() implies key_before(
                        #[trigger] keys@[a]@,
                        #[trigger] keys@[b]@,
                    ) by {
                        assert(after[a].0 == keys@[a]);
                        assert(after[b].0 == keys@[b]);
                    }
                }
                *self = ObjectMap { keys, values };
                proof {
                    assert(self.entries() =~= before.insert(position as int, (key, value)));
                }
                None
            },
        }
    }

    /// Removes `key`, giving back its value.
    pub fn remove(&mut self, key: &str) -> (removed: Option<V>)
        ensures
            final(self)@ == old(self)@.remove(key@),
            final(self)@.dom().finite(),
            final(self)@.len() == if old(self)@.contains_key(key@) {
                old(self)@.len() - 1
            } else {
                old(self)@.len() as int
            },
            match removed {
                Some(v) => old(self)@.contains_key(key@) && v == old(self)@[key@],
                None => !old(self)@.contains_key(key@),
            },
    {
        proof {
            lemma_entries_map_finite(self.entries());
        }
        proof {
            use_type_invariant(&*self);
            self.lemma_sorted();
        }
        match self.find(key) {
            None => {
                assert(self@ =~= self@.remove(key@));
                None
            },
            Some(i) => {
                let ghost before = self.entries();
                let mut taken = ObjectMap { keys: Vec::new(), values: Vec::new() };
                std::mem::swap(&mut taken, self);
                let ObjectMap { mut keys, mut values } = taken;
                proof {
                    lemma_entries_map_at(before, i as int);
                    lemma_remove_map(before, i as int);
                }
                keys.remove(i);
                let value = values.remove(i);
                proof {
                    let after = before.remove(i as int);
                    assert forall|a: int| 0 <= a < after.len() implies #[trigger] after[a] == (keys@[a], values@[a]) by {
                        if a < i {
                            assert(after[a] == before[a]);
                        } else {
                            assert(after[a] == before[a + 1]);
                        }
                    }
                    assert forall|a: int, b: int| 0 <= a < b < keys@.len() implies key_before(
                        #[trigger] keys@[a]@,
                        #[trigger] keys@[b]@,
                    ) by {
                        assert(after[a].0 == keys@[a]);
                        assert(after[b].0 == keys@[b]);
                    }
                }
                *self = ObjectMap { keys, values };
                proof {
                    assert(self.entries() =~= before.remove(i as int));
                }
                Some(value)
            },
        }
    }

    /// The entry for `key`, to read or fill in place.
    pub fn entry(&mut self, key: String) -> (entry: Entry<'_, V>)
        ensures
            *entry.map == *old(self),
            entry.key == key,
            *final(self) == *final(entry.map),
    {
        Entry { map: self, key }
    }

    /// The entry at `index` in iteration order.
    pub fn entry_at(&self, index: usize) -> (entry: (&str, &V))
        requires
            index < self.entries().len(),
        ensures
            entry.0@ == self.entries()[index as int].0@,
            *entry.1 == self.entries()[index as int].1,
    {
        proof {
            use_type_invariant(self);
        }
        (self.keys[index].as_str(), &self.values[index])
    }

    /// The number of entries.
    pub fn len(&self) -> (count: usize)
        ensures
            count == self@.len(),
            self@.dom().finite(),
            count == self.entries().len(),
            sorted_entries(self.entries()),
    {
        proof {
            use_type_invariant(self);
            self.lemma_sorted();
            let keys = entry_keys(self.entries());
            assert forall|i: int, j: int|
                0 <= i < keys.len() && 0 <= j < keys.len() && i != j implies keys[i]
                != keys[j] by {
                lemma_key_order(keys[i], keys[i], keys[i]);
                lemma_key_order(keys[j], keys[j], keys[j]);
            }
            keys.unique_seq_to_set();
            assert(self@.dom() =~= keys.to_set());
        }
        self.keys.len()
    }

    /// Whether the map has no entry.
    pub fn is_empty(&self) -> (empty: bool)
        ensures
            empty == (self@.len() == 0),
    {
        self.len() == 0
    }
}

/// The place of a key in a map, to read or fill in.
pub struct Entry<'a, V> {
    pub map: &'a mut ObjectMap<V>,
    pub key: String,
}

impl<'a, V> Entry<'a, V> {
    /// The key of this entry.
    pub fn key(&self) -> (key: &str)
        ensures
            key@ == self.key@,
    {
        self.key.as_str()
    }

    /// The value held for the key, after inserting `default` when there is none.
    pub fn or_insert(self, default: V) -> (value: &'a mut V)
        ensures
            *value == if old(self.map)@.contains_key(self.key@) {
                old(self.map)@[self.key@]
            } else {
                default
            },
            final(self.map)@ == old(self.map)@.insert(self.key@, *final(value)),
            final(self.map)@.dom().finite(),
            final(self.map)@.len() == if old(self.map)@.contains_key(self.key@) {
                old(self.map)@.len()
            } else {
                old(self.map)@.len() + 1
            },
    {
        let Entry { map, key } = self;
        proof {
            lemma_entries_map_finite(map.entries());
            crate::laws::law_insert_count(map@, key@, default);
            assert(map@.insert(key@, default).dom() == map@.dom().insert(key@));
        }
        let k = key.as_str();
        match map.find(k) {
            Some(i) => {
                proof {
                    use_type_invariant(&*map);
                    map.lemma_sorted();
                    lemma_entries_map_at(map.entries(), i as int);
                }
                map.value_at(i)
            },
            None => {
                let probe = key.clone();
                map.insert(key, default);
                match map.find(probe.as_str()) {
                    Some(i) => {
                        proof {
                            use_type_invariant(&*map);
                    map.lemma_sorted();
                            lemma_entries_map_at(map.entries(), i as int);
                        }
                        map.value_at(i)
                    },
                    None => {
                        proof {
                            assert(map@.contains_key(probe@));
                        }
                        map.value_at(0)
                    },
                }
            },
        }
    }
}

} // verus!
