//! The versioned entry index: keys, entries with version histories, and the
//! predicate-driven operations that keep the index well formed.

use vstd::prelude::*;

use crate::error::Error;

verus! {

/// Identity of a trashed file: its file name and the canonical absolute
/// path it was trashed from.
pub struct Key {
    name: String,
    origin: String,
}

/// Mathematical model of a [`Key`].
pub struct KeyModel {
    pub name: Seq<char>,
    pub origin: Seq<char>,
}

/// One logical trashed file: its key, the identifier of the storage
/// container that groups its versions on disk, and the ordered history of
/// version identifiers, oldest first.
pub struct Entry {
    key: Key,
    uuid: String,
    history: Vec<String>,
}

/// Mathematical model of an [`Entry`].
pub struct EntryModel {
    pub key: KeyModel,
    pub uuid: Seq<char>,
    pub history: Seq<Seq<char>>,
}

/// Selects entries by their key: every entry, every entry with a given
/// name, or the entry with a given name and origin.
pub enum KeySelector {
    Any,
    ByName(String),
    ByNameAndOrigin(String, String),
}

/// Selects versions within a matched entry: the whole history, the
/// last-appended version, or every version equal to a given identifier.
pub enum VersionPredicate {
    All,
    Newest,
    Specific(String),
}

/// The versioned index itself: entries in insertion order, with unique keys
/// and never-empty histories.
pub struct Cache {
    entries: Vec<Entry>,
}

impl View for Key {
    type V = KeyModel;

    closed spec fn view(&self) -> KeyModel {
        KeyModel { name: self.name@, origin: self.origin@ }
    }
}

impl View for Entry {
    type V = EntryModel;

    closed spec fn view(&self) -> EntryModel {
        EntryModel { key: self.key@, uuid: self.uuid@, history: self.history.deep_view() }
    }
}

/// The model of a sequence of entries.
pub open spec fn model_of(entries: Seq<Entry>) -> Seq<EntryModel> {
    entries.map_values(|e: Entry| e@)
}

impl View for Cache {
    type V = Seq<EntryModel>;

    closed spec fn view(&self) -> Seq<EntryModel> {
        model_of(self.entries@)
    }
}

/// Whether a key selector accepts a key.
pub open spec fn selected(sel: KeySelector, k: KeyModel) -> bool {
    match sel {
        KeySelector::Any => true,
        KeySelector::ByName(n) => k.name == n@,
        KeySelector::ByNameAndOrigin(n, o) => k.name == n@ && k.origin == o@,
    }
}

/// The versions of `h` equal to `v`, in history order.
pub open spec fn versions_matching(h: Seq<Seq<char>>, v: Seq<char>) -> Seq<Seq<char>>
    decreases h.len(),
{
    if h.len() == 0 {
        Seq::empty()
    } else {
        versions_matching(h.drop_last(), v) + if h.last() == v {
            seq![h.last()]
        } else {
            Seq::empty()
        }
    }
}

/// The versions of `h` different from `v`, in history order.
pub open spec fn versions_differing(h: Seq<Seq<char>>, v: Seq<char>) -> Seq<Seq<char>>
    decreases h.len(),
{
    if h.len() == 0 {
        Seq::empty()
    } else {
        versions_differing(h.drop_last(), v) + if h.last() == v {
            Seq::empty()
        } else {
            seq![h.last()]
        }
    }
}

/// The versions a predicate removes from a history.
pub open spec fn popped_versions(p: VersionPredicate, h: Seq<Seq<char>>) -> Seq<Seq<char>> {
    match p {
        VersionPredicate::All => h,
        VersionPredicate::Newest => seq![h.last()],
        VersionPredicate::Specific(v) => versions_matching(h, v@),
    }
}

/// The versions a predicate leaves in a history.
pub open spec fn kept_versions(p: VersionPredicate, h: Seq<Seq<char>>) -> Seq<Seq<char>> {
    match p {
        VersionPredicate::All => Seq::empty(),
        VersionPredicate::Newest => h.drop_last(),
        VersionPredicate::Specific(v) => versions_differing(h, v@),
    }
}

/// The snapshot that popping an entry produces: the flag says whether the
/// entry was emptied, and the snapshot holds exactly the removed versions.
pub open spec fn entry_snapshot(p: VersionPredicate, e: EntryModel) -> (bool, EntryModel) {
    (
        kept_versions(p, e.history).len() == 0,
        EntryModel { key: e.key, uuid: e.uuid, history: popped_versions(p, e.history) },
    )
}

/// The entry as popping leaves it (meaningful only when versions remain).
pub open spec fn entry_after_pop(p: VersionPredicate, e: EntryModel) -> EntryModel {
    EntryModel { key: e.key, uuid: e.uuid, history: kept_versions(p, e.history) }
}

/// The snapshots that popping returns, one per selected entry, in index order.
pub open spec fn pop_snapshots(
    entries: Seq<EntryModel>,
    sel: KeySelector,
    p: VersionPredicate,
) -> Seq<(bool, EntryModel)>
    decreases entries.len(),
{
    if entries.len() == 0 {
        Seq::empty()
    } else {
        pop_snapshots(entries.drop_last(), sel, p) + if selected(sel, entries.last().key) {
            seq![entry_snapshot(p, entries.last())]
        } else {
            Seq::empty()
        }
    }
}

/// The entries that remain after popping: unselected entries unchanged,
/// selected entries with their kept versions, emptied entries removed.
pub open spec fn pop_remaining(
    entries: Seq<EntryModel>,
    sel: KeySelector,
    p: VersionPredicate,
) -> Seq<EntryModel>
    decreases entries.len(),
{
    if entries.len() == 0 {
        Seq::empty()
    } else {
        pop_remaining(entries.drop_last(), sel, p) + if selected(sel, entries.last().key) {
            if kept_versions(p, entries.last().history).len() == 0 {
                Seq::empty()
            } else {
                seq![entry_after_pop(p, entries.last())]
            }
        } else {
            seq![entries.last()]
        }
    }
}

/// Whether the selector accepts at least one entry.
pub open spec fn any_selected(entries: Seq<EntryModel>, sel: KeySelector) -> bool {
    exists|i: int| 0 <= i < entries.len() && selected(sel, entries[i].key)
}

/// Whether some entry carries this key.
pub open spec fn has_key(entries: Seq<EntryModel>, k: KeyModel) -> bool {
    exists|i: int| 0 <= i < entries.len() && entries[i].key == k
}

/// The index of the entry carrying this key (unique in a well-formed index).
pub open spec fn key_index(entries: Seq<EntryModel>, k: KeyModel) -> int {
    choose|i: int| 0 <= i < entries.len() && entries[i].key == k
}

/// The index after a push: the matching entry extended by one version, or a
/// fresh entry with a one-element history appended at the end.
pub open spec fn entries_after_push(
    entries: Seq<EntryModel>,
    k: KeyModel,
    u: Seq<char>,
    v: Seq<char>,
) -> Seq<EntryModel> {
    if has_key(entries, k) {
        let i = key_index(entries, k);
        entries.update(
            i,
            EntryModel { key: entries[i].key, uuid: entries[i].uuid, history: entries[i].history.push(v) },
        )
    } else {
        entries.push(EntryModel { key: k, uuid: u, history: seq![v] })
    }
}

/// The index invariant: no two entries share a key, and no entry has an
/// empty history.
pub open spec fn wf_entries(entries: Seq<EntryModel>) -> bool {
    &&& forall|i: int| 0 <= i < entries.len() ==> (#[trigger] entries[i]).history.len() > 0
    &&& forall|i: int, j: int|
        0 <= i < j < entries.len() ==> (#[trigger] entries[i]).key != (#[trigger] entries[j]).key
}

impl Key {
    pub fn new(name: String, origin: String) -> (key: Key)
        ensures
            key@ == (KeyModel { name: name@, origin: origin@ }),
    {
        Key { name, origin }
    }

    pub fn name(&self) -> (r: &String)
        ensures
            r@ == self@.name,
    {
        &self.name
    }

    pub fn origin(&self) -> (r: &String)
        ensures
            r@ == self@.origin,
    {
        &self.origin
    }
}

impl Clone for Key {
    fn clone(&self) -> (r: Self)
        ensures
            r@ == self@,
    {
        Key { name: self.name.clone(), origin: self.origin.clone() }
    }
}

impl PartialEq for Key {
    fn eq(&self, other: &Key) -> (r: bool)
    {
        self.name == other.name && self.origin == other.origin
    }
}

impl vstd::std_specs::cmp::PartialEqSpecImpl for Key {
    open spec fn obeys_eq_spec() -> bool {
        true
    }

    open spec fn eq_spec(&self, other: &Key) -> bool {
        self@ == other@
    }
}

/// Clones a version history.
fn clone_history(h: &Vec<String>) -> (r: Vec<String>)
    ensures
        r.deep_view() == h.deep_view(),
{
    let r = h.clone();
    proof {
        assert forall|i: int| 0 <= i < h@.len() implies r@[i] == h@[i] by {
            assert(cloned::<String>(h@[i], r@[i]));
        }
        assert(r.deep_view() =~= h.deep_view());
    }
    r
}

impl Entry {
    pub fn new(key: Key, uuid: String, history: Vec<String>) -> (r: Entry)
        ensures
            r@ == (EntryModel { key: key@, uuid: uuid@, history: history.deep_view() }),
    {
        Entry { key, uuid, history }
    }

    /// Appends one freshly generated version to the history.
    pub fn push(&mut self, version: String)
        ensures
            final(self)@ == (EntryModel {
                key: old(self)@.key,
                uuid: old(self)@.uuid,
                history: old(self)@.history.push(version@),
            }),
    {
        self.history.push(version);
        proof {
            assert(self.history.deep_view() =~= old(self).history.deep_view().push(version@));
        }
    }

    /// Removes the versions the predicate selects and returns them in
    /// history order; the key and container identifier stay.
    pub fn pop(&mut self, predicate: &VersionPredicate) -> (r: Vec<String>)
        requires
            *predicate is Newest ==> old(self)@.history.len() > 0,
        ensures
            final(self)@.key == old(self)@.key,
            final(self)@.uuid == old(self)@.uuid,
            final(self)@.history == kept_versions(*predicate, old(self)@.history),
            r.deep_view() == popped_versions(*predicate, old(self)@.history),
    {
        match predicate {
            VersionPredicate::All => {
                let mut drained: Vec<String> = Vec::new();
                core::mem::swap(&mut drained, &mut self.history);
                proof {
                    assert(self.history.deep_view() =~= Seq::<Seq<char>>::empty());
                }
                drained
            },
            VersionPredicate::Newest => {
                let newest = self.history.pop().unwrap();
                let mut r: Vec<String> = Vec::new();
                r.push(newest);
                proof {
                    assert(self.history.deep_view() =~= old(self)@.history.drop_last());
                    assert(r.deep_view() =~= seq![old(self)@.history.last()]);
                }
                r
            },
            VersionPredicate::Specific(target) => {
                let mut popped: Vec<String> = Vec::new();
                let mut kept: Vec<String> = Vec::new();
                proof {
                    assert(popped.deep_view() =~= versions_matching(
                        self.history.deep_view().take(0),
                        target@,
                    ));
                    assert(kept.deep_view() =~= versions_differing(
                        self.history.deep_view().take(0),
                        target@,
                    ));
                }
                let n: usize = self.history.len();
                for i in 0..n
                    invariant
                        n == self.history.len(),
                        self.history == old(self).history,
                        popped.deep_view() == versions_matching(
                            self.history.deep_view().take(i as int),
                            target@,
                        ),
                        kept.deep_view() == versions_differing(
                            self.history.deep_view().take(i as int),
                            target@,
                        ),
                {
                    proof {
                        assert(self.history.deep_view().take(i as int + 1).drop_last()
                            =~= self.history.deep_view().take(i as int));
                        assert(self.history.deep_view().take(i as int + 1).last()
                            == self.history.deep_view()[i as int]);
                    }
                    if self.history[i] == *target {
                        popped.push(self.history[i].clone());
                        proof {
                            assert(popped.deep_view() =~= versions_matching(
                                self.history.deep_view().take(i as int + 1),
                                target@,
                            ));
                            assert(kept.deep_view() =~= versions_differing(
                                self.history.deep_view().take(i as int + 1),
                                target@,
                            ));
                        }
                    } else {
                        kept.push(self.history[i].clone());
                        proof {
                            assert(popped.deep_view() =~= versions_matching(
                                self.history.deep_view().take(i as int + 1),
                                target@,
                            ));
                            assert(kept.deep_view() =~= versions_differing(
                                self.history.deep_view().take(i as int + 1),
                                target@,
                            ));
                        }
                    }
                }
                proof {
                    assert(self.history.deep_view().take(n as int) =~= self.history.deep_view());
                }
                self.history = kept;
                popped
            },
        }
    }

    pub fn key(&self) -> (r: &Key)
        ensures
            r@ == self@.key,
    {
        &self.key
    }

    pub fn uuid(&self) -> (r: &String)
        ensures
            r@ == self@.uuid,
    {
        &self.uuid
    }

    pub fn history(&self) -> (r: &Vec<String>)
        ensures
            r.deep_view() == self@.history,
    {
        &self.history
    }
}

impl Clone for Entry {
    fn clone(&self) -> (r: Self)
        ensures
            r@ == self@,
    {
        Entry { key: self.key.clone(), uuid: self.uuid.clone(), history: clone_history(&self.history) }
    }
}

/// Relies on `uuid::Uuid::new_v4` and its hyphenated `Display` form: a
/// freshly generated random identifier, rendered as 36 characters. The
/// result is random, so nothing more is promised.
#[verifier::external_body]
fn fresh_uuid() -> (r: String)
    ensures
        r@.len() == 36,
{
    uuid::Uuid::new_v4().to_string()
}

/// Relies on `chrono::Utc::now`, rendered in its default textual form. The
/// result depends on the clock, so nothing is promised about it.
#[verifier::external_body]
fn timestamp_version() -> String {
    format!("{}", chrono::Utc::now())
}

impl Cache {
    /// The invariant of the index: unique keys, never-empty histories.
    pub open spec fn wf(&self) -> bool {
        wf_entries(self@)
    }

    /// An empty index.
    pub fn new() -> (r: Cache)
        ensures
            r@ == Seq::<EntryModel>::empty(),
            r.wf(),
    {
        let c = Cache { entries: Vec::new() };
        proof {
            assert(c@ =~= Seq::<EntryModel>::empty());
        }
        c
    }

    /// Builds an index from entries already known to satisfy the invariant.
    pub fn from_entries(entries: Vec<Entry>) -> (r: Cache)
        requires
            wf_entries(model_of(entries@)),
        ensures
            r@ == model_of(entries@),
            r.wf(),
    {
        Cache { entries }
    }

    pub fn entries(&self) -> (r: &Vec<Entry>)
        ensures
            model_of(r@) == self@,
    {
        &self.entries
    }

    /// Inserts one freshly trashed version: appends a new version
    /// identifier to the entry with this name and origin, creating the
    /// entry (with a fresh container identifier) when none exists. Returns
    /// the entry's container identifier and the new version identifier.
    pub fn push(&mut self, name: String, origin: String) -> (r: (String, String))
        requires
            old(self).wf(),
        ensures
            final(self)@ == entries_after_push(
                old(self)@,
                KeyModel { name: name@, origin: origin@ },
                r.0@,
                r.1@,
            ),
            final(self).wf(),
            has_key(old(self)@, KeyModel { name: name@, origin: origin@ }) ==> r.0@ == old(
                self,
            )@[key_index(old(self)@, KeyModel { name: name@, origin: origin@ })].uuid,
    {
        let ghost k = KeyModel { name: name@, origin: origin@ };
        let key = Key::new(name, origin);
        let version = timestamp_version();
        let n: usize = self.entries.len();
        let mut i: usize = 0;
        #[verifier::loop_isolation(false)]
        while i < n
            invariant
                n == self.entries.len(),
                *self == *old(self),
                old(self).wf(),
                key@ == k,
                0 <= i <= n,
                forall|j: int| 0 <= j < i ==> model_of(self.entries@)[j].key != k,
            decreases n - i,
        {
            if *self.entries[i].key() == key {
                proof {
                    assert(self@[i as int].key == k);
                    assert forall|j: int| 0 <= j < self@.len() && self@[j].key == k implies j
                        == i as int by {
                        if j < i as int {
                            assert(self@[j].key != k);
                        } else if j > i as int {
                            assert(self@[i as int].key != self@[j].key);
                        }
                    }
                    assert(key_index(self@, k) == i as int) by {
                        assert(self@[i as int].key == k);
                        let ki = key_index(self@, k);
                        assert(0 <= ki < self@.len() && self@[ki].key == k);
                    }
                }
                let uuid = self.entries[i].uuid().clone();
                let mut e = self.entries.remove(i);
                e.push(version.clone());
                self.entries.insert(i, e);
                proof {
                    assert(self@ =~= entries_after_push(old(self)@, k, uuid@, version@));
                    assert(wf_entries(self@)) by {
                        assert(forall|j: int|
                            0 <= j < self@.len() ==> (#[trigger] self@[j]).key == old(
                                self,
                            )@[j].key);
                        assert(self@[i as int].history.len() > 0);
                    }
                }
                return (uuid, version);
            }
            i += 1;
        }
        proof {
            assert(!has_key(self@, k));
        }
        let uuid = fresh_uuid();
        let entry = Entry::new(key, uuid.clone(), {
            let mut h: Vec<String> = Vec::new();
            h.push(version.clone());
            h
        });
        self.entries.push(entry);
        proof {
            assert(entry@.history =~= seq![version@]);
            assert(self@ =~= entries_after_push(old(self)@, k, uuid@, version@));
            assert(wf_entries(self@)) by {
                assert(forall|j: int|
                    0 <= j < old(self)@.len() ==> self@[j] == (#[trigger] old(self)@[j]));
                assert(self@.last().key == k);
                assert(self@.last().history.len() == 1);
            }
        }
        (uuid, version)
    }

    /// Removes, from every entry the key selector accepts, the versions the
    /// version predicate selects. Returns one snapshot per selected entry
    /// holding exactly the removed versions, flagged `true` when the entry
    /// was emptied (and therefore deleted from the index). Fails with
    /// [`Error::MissingTargetPredicate`], leaving the index unchanged, if
    /// and only if the selector accepts no entry at all.
    pub fn pop(&mut self, key_predicate: KeySelector, version_predicate: VersionPredicate) -> (r:
        Result<Vec<(bool, Entry)>, Error>)
        requires
            old(self).wf(),
        ensures
            final(self).wf(),
            match r {
                Ok(popped) => {
                    &&& any_selected(old(self)@, key_predicate)
                    &&& popped@.map_values(|s: (bool, Entry)| (s.0, s.1@)) == pop_snapshots(
                        old(self)@,
                        key_predicate,
                        version_predicate,
                    )
                    &&& final(self)@ == pop_remaining(old(self)@, key_predicate, version_predicate)
                },
                Err(e) => {
                    &&& !any_selected(old(self)@, key_predicate)
                    &&& e is MissingTargetPredicate
                    &&& final(self)@ == old(self)@
                },
            },
    {
        let mut popped: Vec<(bool, Entry)> = Vec::new();
        let mut kept: Vec<Entry> = Vec::new();
        let mut occurred = false;
        let n: usize = self.entries.len();
        let ghost m = old(self)@;
        proof {
            assert(popped@.map_values(|s: (bool, Entry)| (s.0, s.1@)) =~= pop_snapshots(
                m.take(0),
                key_predicate,
                version_predicate,
            ));
            assert(model_of(kept@) =~= pop_remaining(m.take(0), key_predicate, version_predicate));
        }
        for i in 0..n
            invariant
                n == self.entries.len(),
                *self == *old(self),
                m == self@,
                old(self).wf(),
                popped@.map_values(|s: (bool, Entry)| (s.0, s.1@)) == pop_snapshots(
                    m.take(i as int),
                    key_predicate,
                    version_predicate,
                ),
                model_of(kept@) == pop_remaining(m.take(i as int), key_predicate, version_predicate),
                occurred == any_selected(m.take(i as int), key_predicate),
        {
            proof {
                assert(m.take(i as int + 1).drop_last() =~= m.take(i as int));
                assert(m.take(i as int + 1).last() == m[i as int]);
            }
            let e = &self.entries[i];
            if key_selected(&key_predicate, e.key()) {
                occurred = true;
                let mut shrunk = e.clone();
                proof {
                    assert(self@[i as int].history.len() > 0);
                }
                let removed = shrunk.pop(&version_predicate);
                let emptied = shrunk.history().len() == 0;
                let snapshot = Entry::new(
                    shrunk.key().clone(),
                    shrunk.uuid().clone(),
                    removed,
                );
                popped.push((emptied, snapshot));
                if !emptied {
                    kept.push(shrunk);
                }
                proof {
                    assert(popped@.map_values(|s: (bool, Entry)| (s.0, s.1@)) =~= pop_snapshots(
                        m.take(i as int + 1),
                        key_predicate,
                        version_predicate,
                    ));
                    assert(model_of(kept@) =~= pop_remaining(
                        m.take(i as int + 1),
                        key_predicate,
                        version_predicate,
                    ));
                    assert(any_selected(m.take(i as int + 1), key_predicate));
                }
            } else {
                kept.push(e.clone());
                proof {
                    assert(popped@.map_values(|s: (bool, Entry)| (s.0, s.1@)) =~= pop_snapshots(
                        m.take(i as int + 1),
                        key_predicate,
                        version_predicate,
                    ));
                    assert(model_of(kept@) =~= pop_remaining(
                        m.take(i as int + 1),
                        key_predicate,
                        version_predicate,
                    ));
                    assert(any_selected(m.take(i as int + 1), key_predicate) == any_selected(
                        m.take(i as int),
                        key_predicate,
                    ));
                }
            }
        }
        proof {
            assert(m.take(n as int) =~= m);
        }
        if occurred {
            self.entries = kept;
            proof {
                lemma_pop_remaining_wf(m, key_predicate, version_predicate);
            }
            Ok(popped)
        } else {
            Err(Error::MissingTargetPredicate)
        }
    }
}

/// Whether the selector accepts this key, decided executably.
fn key_selected(sel: &KeySelector, k: &Key) -> (r: bool)
    ensures
        r == selected(*sel, k@),
{
    match sel {
        KeySelector::Any => true,
        KeySelector::ByName(n) => k.name == *n,
        KeySelector::ByNameAndOrigin(n, o) => k.name == *n && k.origin == *o,
    }
}

/// Popping preserves the index invariant: kept entries keep their keys in
/// their original relative order, and emptied entries leave.
proof fn lemma_pop_remaining_wf(entries: Seq<EntryModel>, sel: KeySelector, p: VersionPredicate)
    requires
        wf_entries(entries),
    ensures
        wf_entries(pop_remaining(entries, sel, p)),
    decreases entries.len(),
{
    if entries.len() > 0 {
        lemma_pop_remaining_wf(entries.drop_last(), sel, p);
        lemma_pop_remaining_keys(entries.drop_last(), sel, p);
    }
}

/// Every key of the popped remainder is a key of the original index.
proof fn lemma_pop_remaining_keys(entries: Seq<EntryModel>, sel: KeySelector, p: VersionPredicate)
    ensures
        forall|i: int|
            0 <= i < pop_remaining(entries, sel, p).len() ==> has_key(
                entries,
                (#[trigger] pop_remaining(entries, sel, p)[i]).key,
            ),
    decreases entries.len(),
{
    if entries.len() > 0 {
        lemma_pop_remaining_keys(entries.drop_last(), sel, p);
        assert forall|i: int| 0 <= i < pop_remaining(entries, sel, p).len() implies has_key(
            entries,
            (#[trigger] pop_remaining(entries, sel, p)[i]).key,
        ) by {
            let r = pop_remaining(entries, sel, p);
            let rd = pop_remaining(entries.drop_last(), sel, p);
            if i < rd.len() {
                assert(r[i] == rd[i]);
                let j = choose|j: int|
                    0 <= j < entries.drop_last().len() && entries.drop_last()[j].key == rd[i].key;
                assert(entries[j].key == rd[i].key);
            } else {
                assert(r[i].key == entries.last().key);
                assert(entries[entries.len() - 1].key == r[i].key);
            }
        }
    }
}

/// The index after a run of pushes that all carry the same key: version
/// identifiers are taken from `vs` and container identifiers from `ids`,
/// one pair per push, oldest first.
pub open spec fn entries_after_pushes(
    entries: Seq<EntryModel>,
    k: KeyModel,
    ids: Seq<Seq<char>>,
    vs: Seq<Seq<char>>,
) -> Seq<EntryModel>
    decreases vs.len(),
{
    if vs.len() == 0 {
        entries
    } else {
        entries_after_push(
            entries_after_pushes(entries, k, ids.drop_last(), vs.drop_last()),
            k,
            ids.last(),
            vs.last(),
        )
    }
}

/// Law: any sequence of pushes with one and the same key, starting from a
/// well-formed index without that key, produces exactly one new entry for
/// it, whose container identifier is the one generated by the first push
/// and whose history lists the pushed versions in call order; every other
/// entry is untouched.
pub proof fn lemma_pushes_same_key(
    entries: Seq<EntryModel>,
    k: KeyModel,
    ids: Seq<Seq<char>>,
    vs: Seq<Seq<char>>,
)
    requires
        wf_entries(entries),
        !has_key(entries, k),
        ids.len() == vs.len(),
        vs.len() > 0,
    ensures
        entries_after_pushes(entries, k, ids, vs) == entries.push(
            EntryModel { key: k, uuid: ids.first(), history: vs },
        ),
        wf_entries(entries_after_pushes(entries, k, ids, vs)),
    decreases vs.len(),
{
    let r = entries_after_pushes(entries, k, ids, vs);
    if vs.len() == 1 {
        assert(entries_after_pushes(entries, k, ids.drop_last(), vs.drop_last()) == entries);
        assert(r == entries_after_push(entries, k, ids.last(), vs.last()));
        assert(r =~= entries.push(EntryModel { key: k, uuid: ids.first(), history: vs })) by {
            assert(seq![vs.last()] =~= vs);
        }
    } else {
        lemma_pushes_same_key(entries, k, ids.drop_last(), vs.drop_last());
        let prev = entries.push(
            EntryModel { key: k, uuid: ids.drop_last().first(), history: vs.drop_last() },
        );
        assert(ids.drop_last().first() == ids.first());
        let at = entries.len() as int;
        assert(prev[at].key == k);
        assert(has_key(prev, k));
        assert(key_index(prev, k) == at) by {
            let ki = key_index(prev, k);
            assert(0 <= ki < prev.len() && prev[ki].key == k);
            if ki < at {
                assert(entries[ki].key == k);
                assert(has_key(entries, k));
            }
        }
        assert(r =~= entries.push(EntryModel { key: k, uuid: ids.first(), history: vs })) by {
            assert(vs.drop_last().push(vs.last()) =~= vs);
        }
    }
    assert(wf_entries(r)) by {
        assert(forall|i: int| 0 <= i < entries.len() ==> r[i] == (#[trigger] entries[i]));
        assert(r[r.len() - 1].key == k);
        assert(r[r.len() - 1].history.len() == vs.len());
        assert forall|i: int| 0 <= i < entries.len() implies (#[trigger] entries[i]).key != k by {
            if entries[i].key == k {
                assert(has_key(entries, k));
            }
        }
    }
}

/// Law: the newest-version predicate removes exactly the last-appended
/// version of a history — append order, not textual order.
pub proof fn lemma_newest_is_last_appended(h: Seq<Seq<char>>)
    requires
        h.len() > 0,
    ensures
        popped_versions(VersionPredicate::Newest, h) == seq![h.last()],
        kept_versions(VersionPredicate::Newest, h) == h.drop_last(),
{
}

/// Law: after a pop that drains every selected entry in full, no entry the
/// selector accepts remains in the index.
pub proof fn lemma_pop_all_leaves_no_match(entries: Seq<EntryModel>, sel: KeySelector)
    ensures
        forall|i: int|
            0 <= i < pop_remaining(entries, sel, VersionPredicate::All).len() ==> !selected(
                sel,
                (#[trigger] pop_remaining(entries, sel, VersionPredicate::All)[i]).key,
            ),
    decreases entries.len(),
{
    if entries.len() > 0 {
        lemma_pop_all_leaves_no_match(entries.drop_last(), sel);
        let r = pop_remaining(entries, sel, VersionPredicate::All);
        let rd = pop_remaining(entries.drop_last(), sel, VersionPredicate::All);
        assert forall|i: int| 0 <= i < r.len() implies !selected(sel, (#[trigger] r[i]).key) by {
            if selected(sel, entries.last().key) {
                assert(kept_versions(VersionPredicate::All, entries.last().history).len() == 0);
                assert(r == rd);
            } else {
                if i < rd.len() {
                    assert(r[i] == rd[i]);
                } else {
                    assert(r[i] == entries.last());
                }
            }
        }
    }
}

} // verus!
