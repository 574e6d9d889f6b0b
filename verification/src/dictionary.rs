//! A generic keyed store of value lists, the shape the versioned index
//! takes when keys and values are left abstract: categories in insertion
//! order, looked up by key equality and drained by selectors.

use vstd::prelude::*;
use vstd::pervasive::cloned;
use vstd::std_specs::cmp::PartialEqSpec;

verus! {

/// One category: a key and the values filed under it, oldest first.
pub struct Category<K, V> {
    key: K,
    values: Vec<V>,
}

/// Mathematical model of a [`Category`].
pub struct CategoryModel<K, V> {
    pub key: K,
    pub values: Seq<V>,
}

/// A list of categories with pairwise distinct keys, in insertion order.
pub struct Dictionary<K, V> {
    categories: Vec<Category<K, V>>,
}

/// Selects categories: every one, or those whose key equals a given key.
pub enum KeyQuery<K> {
    Any,
    Is(K),
}

/// Selects values within a category: every one, or those equal to a given
/// value.
pub enum ValueQuery<V> {
    Any,
    Is(V),
}

impl<K, V> View for Category<K, V> {
    type V = CategoryModel<K, V>;

    closed spec fn view(&self) -> CategoryModel<K, V> {
        CategoryModel { key: self.key, values: self.values@ }
    }
}

/// The model of a sequence of categories.
pub open spec fn categories_model<K, V>(cats: Seq<Category<K, V>>) -> Seq<CategoryModel<K, V>> {
    cats.map_values(|c: Category<K, V>| c@)
}

impl<K, V> View for Dictionary<K, V> {
    type V = Seq<CategoryModel<K, V>>;

    closed spec fn view(&self) -> Seq<CategoryModel<K, V>> {
        categories_model(self.categories@)
    }
}

/// Whether a key query accepts a key, in terms of the key type's own
/// equality specification.
pub open spec fn key_query_matches<K: PartialEq>(q: KeyQuery<K>, k: K) -> bool {
    match q {
        KeyQuery::Any => true,
        KeyQuery::Is(t) => t.eq_spec(&k),
    }
}

/// Whether a value query accepts a value.
pub open spec fn value_query_matches<V: PartialEq>(q: ValueQuery<V>, v: V) -> bool {
    match q {
        ValueQuery::Any => true,
        ValueQuery::Is(t) => t.eq_spec(&v),
    }
}

/// Whether some category's key equals `k`.
pub open spec fn has_matching<K: PartialEq, V>(cats: Seq<CategoryModel<K, V>>, k: K) -> bool {
    exists|i: int| 0 <= i < cats.len() && k.eq_spec(&cats[i].key)
}

/// The first category whose key equals `k`.
pub open spec fn first_matching<K: PartialEq, V>(cats: Seq<CategoryModel<K, V>>, k: K) -> int
    decreases cats.len(),
{
    if cats.len() == 0 {
        0
    } else if k.eq_spec(&cats.first().key) {
        0
    } else {
        1 + first_matching(cats.drop_first(), k)
    }
}

/// The store after filing `v` under `k`: the first category with that key
/// is extended, or a fresh single-value category is appended.
pub open spec fn dict_after_push<K: PartialEq, V>(
    cats: Seq<CategoryModel<K, V>>,
    k: K,
    v: V,
) -> Seq<CategoryModel<K, V>> {
    if has_matching(cats, k) {
        let i = first_matching(cats, k);
        cats.update(i, CategoryModel { key: cats[i].key, values: cats[i].values.push(v) })
    } else {
        cats.push(CategoryModel { key: k, values: seq![v] })
    }
}

/// The values of `vs` the query accepts, in order.
pub open spec fn values_matching<V: PartialEq>(vs: Seq<V>, q: ValueQuery<V>) -> Seq<V>
    decreases vs.len(),
{
    if vs.len() == 0 {
        Seq::empty()
    } else {
        values_matching(vs.drop_last(), q) + if value_query_matches(q, vs.last()) {
            seq![vs.last()]
        } else {
            Seq::empty()
        }
    }
}

/// The values of `vs` the query rejects, in order.
pub open spec fn values_differing<V: PartialEq>(vs: Seq<V>, q: ValueQuery<V>) -> Seq<V>
    decreases vs.len(),
{
    if vs.len() == 0 {
        Seq::empty()
    } else {
        values_differing(vs.drop_last(), q) + if value_query_matches(q, vs.last()) {
            Seq::empty()
        } else {
            seq![vs.last()]
        }
    }
}

/// The values a pop returns: from every category the key query accepts,
/// the values the value query accepts, category by category.
pub open spec fn dict_popped<K: PartialEq, V: PartialEq>(
    cats: Seq<CategoryModel<K, V>>,
    kq: KeyQuery<K>,
    vq: ValueQuery<V>,
) -> Seq<V>
    decreases cats.len(),
{
    if cats.len() == 0 {
        Seq::empty()
    } else {
        dict_popped(cats.drop_last(), kq, vq) + if key_query_matches(kq, cats.last().key) {
            values_matching(cats.last().values, vq)
        } else {
            Seq::empty()
        }
    }
}

/// The categories a pop leaves: exactly those the key query rejects.
pub open spec fn dict_remaining<K: PartialEq, V>(
    cats: Seq<CategoryModel<K, V>>,
    kq: KeyQuery<K>,
) -> Seq<CategoryModel<K, V>>
    decreases cats.len(),
{
    if cats.len() == 0 {
        Seq::empty()
    } else {
        dict_remaining(cats.drop_last(), kq) + if key_query_matches(kq, cats.last().key) {
            Seq::empty()
        } else {
            seq![cats.last()]
        }
    }
}

/// The values a read-only query gathers: every value of every category the
/// key query accepts.
pub open spec fn dict_values<K: PartialEq, V>(
    cats: Seq<CategoryModel<K, V>>,
    kq: KeyQuery<K>,
) -> Seq<V>
    decreases cats.len(),
{
    if cats.len() == 0 {
        Seq::empty()
    } else {
        dict_values(cats.drop_last(), kq) + if key_query_matches(kq, cats.last().key) {
            cats.last().values
        } else {
            Seq::empty()
        }
    }
}

/// Whether any category's key is accepted by the query.
pub open spec fn dict_contains<K: PartialEq, V>(
    cats: Seq<CategoryModel<K, V>>,
    kq: KeyQuery<K>,
) -> bool {
    exists|i: int| 0 <= i < cats.len() && key_query_matches(kq, cats[i].key)
}

/// Whether the key query accepts this key, decided executably.
fn key_query_test<K: PartialEq>(q: &KeyQuery<K>, k: &K) -> (r: bool)
    ensures
        K::obeys_eq_spec() ==> r == key_query_matches(*q, *k),
{
    match q {
        KeyQuery::Any => true,
        KeyQuery::Is(t) => *t == *k,
    }
}

/// Whether the value query accepts this value, decided executably.
fn value_query_test<V: PartialEq>(q: &ValueQuery<V>, v: &V) -> (r: bool)
    ensures
        V::obeys_eq_spec() ==> r == value_query_matches(*q, *v),
{
    match q {
        ValueQuery::Any => true,
        ValueQuery::Is(t) => *t == *v,
    }
}

/// If the categories before `i` all reject `k` and the one at `i` accepts
/// it, then `i` is the first match.
proof fn lemma_first_matching<K: PartialEq, V>(cats: Seq<CategoryModel<K, V>>, k: K, i: int)
    requires
        0 <= i < cats.len(),
        k.eq_spec(&cats[i].key),
        forall|j: int| 0 <= j < i ==> !k.eq_spec(&(#[trigger] cats[j]).key),
    ensures
        first_matching(cats, k) == i,
    decreases i,
{
    if i > 0 {
        assert(!k.eq_spec(&cats.first().key));
        assert(cats.drop_first()[i - 1] == cats[i]);
        assert(forall|j: int|
            0 <= j < i - 1 ==> (#[trigger] cats.drop_first()[j]) == cats[j + 1]);
        lemma_first_matching(cats.drop_first(), k, i - 1);
    }
}

impl<K: PartialEq, V> Category<K, V> {
    pub fn new(key: K, values: Vec<V>) -> (r: Category<K, V>)
        ensures
            r@ == (CategoryModel { key: key, values: values@ }),
    {
        Category { key, values }
    }

    /// Files one more value under this category's key.
    pub fn push(&mut self, value: V)
        ensures
            final(self)@ == (CategoryModel {
                key: old(self)@.key,
                values: old(self)@.values.push(value),
            }),
    {
        self.values.push(value);
    }

    /// Removes the values the query accepts and returns them in order.
    pub fn pop(&mut self, predicate: &ValueQuery<V>) -> (r: Vec<V>) where V: PartialEq
        ensures
            final(self)@.key == old(self)@.key,
            V::obeys_eq_spec() ==> final(self)@.values == values_differing(
                old(self)@.values,
                *predicate,
            ),
            V::obeys_eq_spec() ==> r@ == values_matching(old(self)@.values, *predicate),
    {
        let mut taken: Vec<V> = Vec::new();
        let mut kept: Vec<V> = Vec::new();
        let n: usize = self.values.len();
        let mut i: usize = 0;
        let ghost vs = self.values@;
        proof {
            assert(taken@ =~= values_matching(vs.take(0), *predicate));
            assert(kept@ =~= values_differing(vs.take(0), *predicate));
            assert(self.values@ =~= vs.skip(0));
        }
        #[verifier::loop_isolation(false)]
        while i < n
            invariant
                n == vs.len(),
                0 <= i <= n,
                self.values@ == vs.skip(i as int),
                self.key == old(self).key,
                V::obeys_eq_spec() ==> taken@ == values_matching(vs.take(i as int), *predicate),
                V::obeys_eq_spec() ==> kept@ == values_differing(vs.take(i as int), *predicate),
            decreases n - i,
        {
            proof {
                assert(vs.take(i as int + 1).drop_last() =~= vs.take(i as int));
                assert(vs.take(i as int + 1).last() == vs[i as int]);
                assert(vs.skip(i as int)[0] == vs[i as int]);
            }
            let v = self.values.remove(0);
            proof {
                assert(self.values@ =~= vs.skip(i as int + 1));
            }
            if value_query_test(predicate, &v) {
                taken.push(v);
            } else {
                kept.push(v);
            }
            proof {
                if V::obeys_eq_spec() {
                    assert(taken@ =~= values_matching(vs.take(i as int + 1), *predicate));
                    assert(kept@ =~= values_differing(vs.take(i as int + 1), *predicate));
                }
            }
            i += 1;
        }
        proof {
            assert(vs.take(n as int) =~= vs);
        }
        self.values = kept;
        taken
    }

    /// The values, cloned.
    pub fn values(&self) -> (r: Vec<V>) where V: Clone
        ensures
            r@.len() == self@.values.len(),
            forall|i: int| 0 <= i < r@.len() ==> cloned::<V>(self@.values[i], #[trigger] r@[i]),
    {
        let mut r: Vec<V> = Vec::new();
        let n: usize = self.values.len();
        let mut i: usize = 0;
        #[verifier::loop_isolation(false)]
        while i < n
            invariant
                n == self.values@.len(),
                0 <= i <= n,
                r@.len() == i,
                forall|j: int| 0 <= j < i ==> cloned::<V>(self@.values[j], #[trigger] r@[j]),
            decreases n - i,
        {
            r.push(self.values[i].clone());
            i += 1;
        }
        r
    }

    /// The category's key.
    pub fn key(&self) -> (r: &K)
        ensures
            *r == self@.key,
    {
        &self.key
    }

    /// Whether this category is filed under `key`.
    pub fn is(&self, key: &K) -> (r: bool)
        ensures
            K::obeys_eq_spec() ==> r == key.eq_spec(&self@.key),
    {
        *key == self.key
    }
}

impl<K: PartialEq, V> Dictionary<K, V> {
    /// An empty store.
    pub fn new() -> (r: Dictionary<K, V>)
        ensures
            r@ == Seq::<CategoryModel<K, V>>::empty(),
    {
        let d = Dictionary { categories: Vec::new() };
        proof {
            assert(d@ =~= Seq::<CategoryModel<K, V>>::empty());
        }
        d
    }

    /// Files `value` under `target_key`: the first category with that key
    /// is extended, or a fresh category is appended.
    pub fn push(&mut self, target_key: K, value: V)
        ensures
            K::obeys_eq_spec() ==> final(self)@ == dict_after_push(old(self)@, target_key, value),
    {
        let n: usize = self.categories.len();
        let mut i: usize = 0;
        #[verifier::loop_isolation(false)]
        while i < n
            invariant
                n == self.categories@.len(),
                0 <= i <= n,
                *self == *old(self),
                K::obeys_eq_spec() ==> forall|j: int|
                    0 <= j < i ==> !target_key.eq_spec(&(#[trigger] self@[j]).key),
            decreases n - i,
        {
            if self.categories[i].is(&target_key) {
                let mut c = self.categories.remove(i);
                c.push(value);
                self.categories.insert(i, c);
                proof {
                    if K::obeys_eq_spec() {
                        lemma_first_matching(old(self)@, target_key, i as int);
                        assert(has_matching(old(self)@, target_key)) by {
                            assert(target_key.eq_spec(&old(self)@[i as int].key));
                        }
                        assert(self@ =~= dict_after_push(old(self)@, target_key, value));
                    }
                }
                return ;
            }
            i += 1;
        }
        let mut single: Vec<V> = Vec::new();
        single.push(value);
        let fresh = Category::new(target_key, single);
        self.categories.push(fresh);
        proof {
            if K::obeys_eq_spec() {
                assert(!has_matching(old(self)@, target_key)) by {
                    if has_matching(old(self)@, target_key) {
                        let j = choose|j: int|
                            0 <= j < old(self)@.len() && target_key.eq_spec(&old(self)@[j].key);
                        assert(!target_key.eq_spec(&old(self)@[j].key));
                    }
                }
                assert(fresh@.values =~= seq![value]);
                assert(self@ =~= dict_after_push(old(self)@, target_key, value));
            }
        }
    }

    /// Removes every category the key query accepts, returning, in order,
    /// the removed values the value query accepts.
    pub fn pop(&mut self, key_predicate: &KeyQuery<K>, value_predicate: &ValueQuery<V>) -> (r: Vec<
        V,
    >) where V: PartialEq
        ensures
            K::obeys_eq_spec() && V::obeys_eq_spec() ==> r@ == dict_popped(
                old(self)@,
                *key_predicate,
                *value_predicate,
            ),
            K::obeys_eq_spec() ==> final(self)@ == dict_remaining(old(self)@, *key_predicate),
    {
        let mut taken: Vec<V> = Vec::new();
        let mut kept: Vec<Category<K, V>> = Vec::new();
        let n: usize = self.categories.len();
        let mut i: usize = 0;
        let ghost cats = self@;
        proof {
            assert(taken@ =~= dict_popped(cats.take(0), *key_predicate, *value_predicate));
            assert(categories_model(kept@) =~= dict_remaining(cats.take(0), *key_predicate));
            assert(self.categories@ =~= self.categories@.skip(0));
        }
        #[verifier::loop_isolation(false)]
        while i < n
            invariant
                n == cats.len(),
                0 <= i <= n,
                categories_model(self.categories@) == cats.skip(i as int),
                K::obeys_eq_spec() && V::obeys_eq_spec() ==> taken@ == dict_popped(
                    cats.take(i as int),
                    *key_predicate,
                    *value_predicate,
                ),
                K::obeys_eq_spec() ==> categories_model(kept@) == dict_remaining(
                    cats.take(i as int),
                    *key_predicate,
                ),
            decreases n - i,
        {
            proof {
                assert(cats.take(i as int + 1).drop_last() =~= cats.take(i as int));
                assert(cats.take(i as int + 1).last() == cats[i as int]);
                assert(categories_model(self.categories@)[0] == cats[i as int]);
            }
            let ghost prev = self.categories@;
            let mut c = self.categories.remove(0);
            proof {
                assert(c@ == cats[i as int]) by {
                    assert(categories_model(prev)[0] == prev[0]@);
                }
                assert forall|j: int| 0 <= j < self.categories@.len() implies #[trigger]
                    categories_model(self.categories@)[j] == cats.skip(i as int + 1)[j] by {
                    assert(self.categories@[j] == prev[j + 1]);
                    assert(categories_model(prev)[j + 1] == prev[j + 1]@);
                    assert(cats.skip(i as int)[j + 1] == cats[i as int + 1 + j]);
                }
                assert(categories_model(self.categories@) =~= cats.skip(i as int + 1));
            }
            if key_query_test(key_predicate, c.key()) {
                let mut vs = c.pop(value_predicate);
                taken.append(&mut vs);
            } else {
                kept.push(c);
            }
            proof {
                if K::obeys_eq_spec() && V::obeys_eq_spec() {
                    assert(taken@ =~= dict_popped(
                        cats.take(i as int + 1),
                        *key_predicate,
                        *value_predicate,
                    ));
                }
                if K::obeys_eq_spec() {
                    assert(categories_model(kept@) =~= dict_remaining(
                        cats.take(i as int + 1),
                        *key_predicate,
                    ));
                }
            }
            i += 1;
        }
        proof {
            assert(cats.take(n as int) =~= cats);
        }
        self.categories = kept;
        taken
    }

    /// The values of every category the key query accepts, cloned, in order.
    pub fn values(&self, predicate: &KeyQuery<K>) -> (r: Vec<V>) where V: Clone
        ensures
            K::obeys_eq_spec() ==> {
                &&& r@.len() == dict_values(self@, *predicate).len()
                &&& forall|i: int|
                    0 <= i < r@.len() ==> cloned::<V>(
                        dict_values(self@, *predicate)[i],
                        #[trigger] r@[i],
                    )
            },
    {
        let mut r: Vec<V> = Vec::new();
        let n: usize = self.categories.len();
        let mut i: usize = 0;
        proof {
            assert(dict_values(self@.take(0), *predicate) =~= Seq::<V>::empty());
        }
        #[verifier::loop_isolation(false)]
        while i < n
            invariant
                n == self.categories@.len(),
                0 <= i <= n,
                K::obeys_eq_spec() ==> {
                    &&& r@.len() == dict_values(self@.take(i as int), *predicate).len()
                    &&& forall|j: int|
                        0 <= j < r@.len() ==> cloned::<V>(
                            dict_values(self@.take(i as int), *predicate)[j],
                            #[trigger] r@[j],
                        )
                },
            decreases n - i,
        {
            proof {
                assert(self@.take(i as int + 1).drop_last() =~= self@.take(i as int));
                assert(self@.take(i as int + 1).last() == self@[i as int]);
            }
            if key_query_test(predicate, self.categories[i].key()) {
                let mut vs = self.categories[i].values();
                let ghost before = r@;
                r.append(&mut vs);
                proof {
                    if K::obeys_eq_spec() {
                        assert(dict_values(self@.take(i as int + 1), *predicate)
                            =~= dict_values(self@.take(i as int), *predicate)
                            + self@[i as int].values);
                    }
                }
            } else {
                proof {
                    if K::obeys_eq_spec() {
                        assert(dict_values(self@.take(i as int + 1), *predicate) =~= dict_values(
                            self@.take(i as int),
                            *predicate,
                        ));
                    }
                }
            }
            i += 1;
        }
        proof {
            assert(self@.take(n as int) =~= self@);
        }
        r
    }

    /// Whether any category's key is accepted by the query.
    pub fn contains_key(&self, predicate: &KeyQuery<K>) -> (r: bool)
        ensures
            K::obeys_eq_spec() ==> r == dict_contains(self@, *predicate),
    {
        let n: usize = self.categories.len();
        let mut i: usize = 0;
        #[verifier::loop_isolation(false)]
        while i < n
            invariant
                n == self.categories@.len(),
                0 <= i <= n,
                K::obeys_eq_spec() ==> forall|j: int|
                    0 <= j < i ==> !key_query_matches(*predicate, (#[trigger] self@[j]).key),
            decreases n - i,
        {
            if key_query_test(predicate, self.categories[i].key()) {
                proof {
                    if K::obeys_eq_spec() {
                        assert(key_query_matches(*predicate, self@[i as int].key));
                    }
                }
                return true;
            }
            i += 1;
        }
        false
    }
}

} // verus!
