//! The orchestrator: the planning half of delete, restore, list and empty.
//! It owns the index and the settings, derives every path below the storage
//! root, and answers each request with the exact file moves and directory
//! removals the caller must perform — the index mutation is authoritative,
//! the physical work is handed back as a plan.

use vstd::prelude::*;
use vstd::string::*;

use crate::cache::{
    Cache, Entry, EntryModel, KeyModel, KeySelector, VersionPredicate, any_selected,
    entries_after_push, has_key, key_index, model_of, pop_remaining, pop_snapshots, selected,
    wf_entries,
};
use crate::error::Error;
use crate::json::render_cache;
use crate::pattern::{Pattern, regex_is_match};
use crate::settings::{Settings, SettingsModel};

verus! {

/// The orchestrator's state: the index, the output settings, and the path
/// of the storage root that holds one directory per container identifier.
pub struct Trash {
    cache: Cache,
    settings: Settings,
    data_path: String,
}

/// What a delete asks the caller to do: create the container directory and
/// move the file to its version's slot inside it.
pub struct DeleteAction {
    pub uuid: String,
    pub version: String,
    pub container_dir: String,
    pub destination: String,
}

/// One step of a restore or empty plan, to be performed in order; the
/// first failing step aborts the rest.
pub enum RestoreStep {
    /// Move the stored version back to its destination; `version` names
    /// the version for error reporting.
    Move { source: String, destination: String, version: String },
    /// Remove a now-orphaned container directory.
    RemoveDir(String),
}

/// Mathematical model of a [`RestoreStep`].
pub enum RestoreStepModel {
    Move { source: Seq<char>, destination: Seq<char>, version: Seq<char> },
    RemoveDir(Seq<char>),
}

impl View for RestoreStep {
    type V = RestoreStepModel;

    closed spec fn view(&self) -> RestoreStepModel {
        match self {
            RestoreStep::Move { source, destination, version } => RestoreStepModel::Move {
                source: source@,
                destination: destination@,
                version: version@,
            },
            RestoreStep::RemoveDir(dir) => RestoreStepModel::RemoveDir(dir@),
        }
    }
}

/// The model of a sequence of steps.
pub open spec fn steps_model(steps: Seq<RestoreStep>) -> Seq<RestoreStepModel> {
    steps.map_values(|s: RestoreStep| s@)
}

/// A path below a directory.
pub open spec fn joined(dir: Seq<char>, name: Seq<char>) -> Seq<char> {
    dir + seq!['/'] + name
}

/// Joins a directory and a name with a separator.
pub fn join_path(dir: &str, name: &str) -> (r: String)
    ensures
        r@ == joined(dir@, name@),
{
    let mut r = String::from_str(dir);
    r.append("/");
    r.append(name);
    proof {
        reveal_strlit("/");
        assert(r@ =~= joined(dir@, name@));
    }
    r
}

/// The part of a path after its last separator.
pub open spec fn after_last_slash(path: Seq<char>) -> Seq<char>
    decreases path.len(),
{
    if path.len() == 0 {
        Seq::empty()
    } else if path.last() == '/' {
        Seq::empty()
    } else {
        after_last_slash(path.drop_last()).push(path.last())
    }
}

/// The file name of a path: what stands after its last separator, or
/// nothing when the path ends in a separator.
pub fn base_name(path: &str) -> (r: Option<String>)
    ensures
        after_last_slash(path@).len() > 0 <==> r is Some,
        r matches Some(name) ==> name@ == after_last_slash(path@),
{
    let chars = crate::json::to_chars(path);
    let n: usize = chars.len();
    let mut name: Vec<char> = Vec::new();
    let mut i: usize = n;
    proof {
        assert(chars@.take(n as int) =~= chars@);
        assert(after_last_slash(chars@) =~= after_last_slash(chars@.take(i as int)) + name@);
    }
    #[verifier::loop_isolation(false)]
    while i > 0 && chars[i - 1] != '/'
        invariant
            0 <= i <= n,
            after_last_slash(chars@) == after_last_slash(chars@.take(i as int)) + name@,
        decreases i,
    {
        proof {
            assert(chars@.take(i as int).drop_last() =~= chars@.take(i as int - 1));
            assert(chars@.take(i as int).last() == chars@[i as int - 1]);
        }
        let ghost before = name@;
        name.insert(0, chars[i - 1]);
        proof {
            assert(name@ =~= seq![chars@[i as int - 1]] + before);
            assert(after_last_slash(chars@.take(i as int - 1)).push(chars@[i as int - 1]) + before
                =~= after_last_slash(chars@.take(i as int - 1)) + name@);
        }
        i -= 1;
    }
    proof {
        if i == 0 {
            assert(chars@.take(0) =~= Seq::<char>::empty());
            assert(after_last_slash(chars@) =~= name@);
        } else {
            assert(chars@.take(i as int).last() == chars@[i as int - 1]);
            assert(after_last_slash(chars@.take(i as int)) =~= Seq::<char>::empty());
            assert(after_last_slash(chars@) =~= name@);
        }
    }
    if name.len() == 0 {
        None
    } else {
        Some(crate::json::chars_to_string(&name))
    }
}

/// The key selector a restore builds: by name, narrowed by origin when one
/// is given.
pub open spec fn restore_key_selector(name: String, origin: Option<String>) -> KeySelector {
    match origin {
        Some(o) => KeySelector::ByNameAndOrigin(name, o),
        None => KeySelector::ByName(name),
    }
}

/// The version predicate a restore builds: everything for `all`, the last
/// appended version for `newest` or no selector, otherwise exactly the
/// named version.
pub open spec fn restore_version_predicate(version: Option<String>) -> VersionPredicate {
    match version {
        None => VersionPredicate::Newest,
        Some(v) => if v@ == "all"@ {
            VersionPredicate::All
        } else if v@ == "newest"@ {
            VersionPredicate::Newest
        } else {
            VersionPredicate::Specific(v)
        },
    }
}

/// The move that restores one version: from its slot in the container
/// directory back to the origin, disambiguated by the version identifier
/// when several versions are restored at once.
pub open spec fn version_move(
    data: Seq<char>,
    uuid: Seq<char>,
    origin: Seq<char>,
    multi: bool,
    v: Seq<char>,
) -> RestoreStepModel {
    RestoreStepModel::Move {
        source: joined(joined(data, uuid), v),
        destination: if multi {
            origin + seq!['_'] + v
        } else {
            origin
        },
        version: v,
    }
}

/// The moves that restore a history, oldest first.
pub open spec fn moves_of(
    data: Seq<char>,
    uuid: Seq<char>,
    origin: Seq<char>,
    multi: bool,
    vs: Seq<Seq<char>>,
) -> Seq<RestoreStepModel>
    decreases vs.len(),
{
    if vs.len() == 0 {
        Seq::empty()
    } else {
        moves_of(data, uuid, origin, multi, vs.drop_last()) + seq![
            version_move(data, uuid, origin, multi, vs.last()),
        ]
    }
}

/// The steps one popped snapshot demands: its moves, then the removal of
/// its container directory if the entry was emptied.
pub open spec fn snapshot_steps(data: Seq<char>, s: (bool, EntryModel)) -> Seq<RestoreStepModel> {
    moves_of(data, s.1.uuid, s.1.key.origin, s.1.history.len() > 1, s.1.history) + if s.0 {
        seq![RestoreStepModel::RemoveDir(joined(data, s.1.uuid))]
    } else {
        Seq::empty()
    }
}

/// The whole restore plan: the snapshots' steps, snapshot by snapshot.
pub open spec fn plan_of(data: Seq<char>, snaps: Seq<(bool, EntryModel)>) -> Seq<RestoreStepModel>
    decreases snaps.len(),
{
    if snaps.len() == 0 {
        Seq::empty()
    } else {
        plan_of(data, snaps.drop_last()) + snapshot_steps(data, snaps.last())
    }
}

/// The container directories of the entries, in index order.
pub open spec fn container_dirs(data: Seq<char>, entries: Seq<EntryModel>) -> Seq<Seq<char>>
    decreases entries.len(),
{
    if entries.len() == 0 {
        Seq::empty()
    } else {
        container_dirs(data, entries.drop_last()) + seq![joined(data, entries.last().uuid)]
    }
}

/// The entries whose name the pattern matches, in index order.
pub open spec fn listed(entries: Seq<EntryModel>, pat: Seq<char>) -> Seq<EntryModel>
    decreases entries.len(),
{
    if entries.len() == 0 {
        Seq::empty()
    } else {
        listed(entries.drop_last(), pat) + if regex_is_match(pat, entries.last().key.name) {
            seq![entries.last()]
        } else {
            Seq::empty()
        }
    }
}

impl Trash {
    /// The index contents.
    pub closed spec fn entries_view(&self) -> Seq<EntryModel> {
        self.cache@
    }

    /// The storage root path.
    pub closed spec fn data_view(&self) -> Seq<char> {
        self.data_path@
    }

    /// The output settings.
    pub closed spec fn settings_view(&self) -> SettingsModel {
        self.settings@
    }

    /// The orchestrator is well formed when its index is.
    pub open spec fn wf(&self) -> bool {
        wf_entries(self.entries_view())
    }

    /// An orchestrator over a loaded index, loaded settings, and the
    /// storage root path.
    pub fn new(cache: Cache, settings: Settings, data_path: String) -> (r: Trash)
        requires
            cache.wf(),
        ensures
            r.entries_view() == cache@,
            r.settings_view() == settings@,
            r.data_view() == data_path@,
            r.wf(),
    {
        Trash { cache, settings, data_path }
    }

    /// The index entries, for listing and persistence.
    pub fn entries(&self) -> (r: &Vec<Entry>)
        ensures
            model_of(r@) == self.entries_view(),
    {
        self.cache.entries()
    }

    /// The persisted form of the index, to be written over the backing
    /// file at the end of a successful run.
    pub fn end(&self) -> (r: String)
        requires
            self.wf(),
        ensures
            r@ == render_cache(self.entries_view()),
    {
        self.cache.end()
    }

    /// Records one freshly trashed file: pushes a new version for the
    /// file's key and answers with the container directory to create and
    /// the destination the caller must move the file to.
    pub fn delete(&mut self, name: String, origin: String) -> (r: DeleteAction)
        requires
            old(self).wf(),
        ensures
            final(self).wf(),
            final(self).data_view() == old(self).data_view(),
            final(self).settings_view() == old(self).settings_view(),
            final(self).entries_view() == entries_after_push(
                old(self).entries_view(),
                KeyModel { name: name@, origin: origin@ },
                r.uuid@,
                r.version@,
            ),
            has_key(old(self).entries_view(), KeyModel { name: name@, origin: origin@ })
                ==> r.uuid@ == old(self).entries_view()[key_index(
                old(self).entries_view(),
                KeyModel { name: name@, origin: origin@ },
            )].uuid,
            r.container_dir@ == joined(old(self).data_view(), r.uuid@),
            r.destination@ == joined(r.container_dir@, r.version@),
    {
        let (uuid, version) = self.cache.push(name, origin);
        let container_dir = join_path(self.data_path.as_str(), uuid.as_str());
        let destination = join_path(container_dir.as_str(), version.as_str());
        DeleteAction { uuid, version, container_dir, destination }
    }

    /// Plans a restore: pops the selected versions of the entries carrying
    /// the target name (and origin, when given) and answers with the moves
    /// to perform, oldest version first, each emptied entry's container
    /// removal following its moves. Fails, leaving the index unchanged, if
    /// and only if no entry carries the target.
    pub fn restore(
        &mut self,
        target_name: String,
        target_origin: Option<String>,
        target_version: Option<String>,
    ) -> (r: Result<Vec<RestoreStep>, Error>)
        requires
            old(self).wf(),
        ensures
            final(self).wf(),
            final(self).data_view() == old(self).data_view(),
            final(self).settings_view() == old(self).settings_view(),
            ({
                let ksel = restore_key_selector(target_name, target_origin);
                let vsel = restore_version_predicate(target_version);
                match r {
                    Ok(steps) => {
                        &&& any_selected(old(self).entries_view(), ksel)
                        &&& final(self).entries_view() == pop_remaining(
                            old(self).entries_view(),
                            ksel,
                            vsel,
                        )
                        &&& steps_model(steps@) == plan_of(
                            old(self).data_view(),
                            pop_snapshots(old(self).entries_view(), ksel, vsel),
                        )
                    },
                    Err(e) => {
                        &&& !any_selected(old(self).entries_view(), ksel)
                        &&& e is MissingTargetPredicate
                        &&& final(self).entries_view() == old(self).entries_view()
                    },
                }
            }),
    {
        let key_selector = match target_origin {
            Some(o) => KeySelector::ByNameAndOrigin(target_name, o),
            None => KeySelector::ByName(target_name),
        };
        let version_predicate = match target_version {
            None => VersionPredicate::Newest,
            Some(v) => {
                if v == String::from_str("all") {
                    proof {
                        reveal_strlit("all");
                    }
                    VersionPredicate::All
                } else if v == String::from_str("newest") {
                    proof {
                        reveal_strlit("newest");
                    }
                    VersionPredicate::Newest
                } else {
                    VersionPredicate::Specific(v)
                }
            },
        };
        let popped = match self.cache.pop(key_selector, version_predicate) {
            Ok(popped) => popped,
            Err(e) => {
                return Err(e);
            },
        };
        let ghost snaps = popped@.map_values(|s: (bool, Entry)| (s.0, s.1@));
        let mut steps: Vec<RestoreStep> = Vec::new();
        let n: usize = popped.len();
        let mut i: usize = 0;
        proof {
            assert(steps_model(steps@) =~= plan_of(self.data_path@, snaps.take(0)));
        }
        #[verifier::loop_isolation(false)]
        while i < n
            invariant
                n == popped@.len(),
                0 <= i <= n,
                steps_model(steps@) == plan_of(self.data_path@, snaps.take(i as int)),
            decreases n - i,
        {
            proof {
                assert(snaps.take(i as int + 1).drop_last() =~= snaps.take(i as int));
                assert(snaps.take(i as int + 1).last() == snaps[i as int]);
            }
            let emptied = popped[i].0;
            let entry = &popped[i].1;
            let container_dir = join_path(self.data_path.as_str(), entry.uuid().as_str());
            let history = entry.history();
            let m: usize = history.len();
            let multi = m > 1;
            let ghost hist = snaps[i as int].1.history;
            let mut j: usize = 0;
            proof {
                assert(hist == history.deep_view());
                assert(steps_model(steps@) =~= plan_of(self.data_path@, snaps.take(i as int))
                    + moves_of(
                    self.data_path@,
                    snaps[i as int].1.uuid,
                    snaps[i as int].1.key.origin,
                    snaps[i as int].1.history.len() > 1,
                    hist.take(0),
                ));
            }
            #[verifier::loop_isolation(false)]
            while j < m
                invariant
                    0 <= j <= m,
                    steps_model(steps@) == plan_of(self.data_path@, snaps.take(i as int))
                        + moves_of(
                        self.data_path@,
                        snaps[i as int].1.uuid,
                        snaps[i as int].1.key.origin,
                        snaps[i as int].1.history.len() > 1,
                        hist.take(j as int),
                    ),
                decreases m - j,
            {
                proof {
                    assert(hist.take(j as int + 1).drop_last() =~= hist.take(j as int));
                    assert(hist.take(j as int + 1).last() == hist[j as int]);
                }
                let version = &history[j];
                let source = join_path(container_dir.as_str(), version.as_str());
                let destination = if multi {
                    let mut d = entry.key().origin().clone();
                    d.append("_");
                    d.append(version.as_str());
                    proof {
                        reveal_strlit("_");
                        assert((*entry)@ == snaps[i as int].1);
                        assert((*version)@ == hist[j as int]);
                        assert("_"@ =~= seq!['_']);
                        assert(d@ =~= snaps[i as int].1.key.origin + seq!['_'] + hist[j as int]);
                    }
                    d
                } else {
                    entry.key().origin().clone()
                };
                let ghost prev_steps = steps@;
                steps.push(RestoreStep::Move { source, destination, version: version.clone() });
                proof {
                    assert(steps@.last()@ == version_move(
                        self.data_path@,
                        snaps[i as int].1.uuid,
                        snaps[i as int].1.key.origin,
                        snaps[i as int].1.history.len() > 1,
                        hist[j as int],
                    ));
                    assert(steps_model(steps@) =~= steps_model(prev_steps) + seq![
                        steps@.last()@,
                    ]);
                    assert(moves_of(
                        self.data_path@,
                        snaps[i as int].1.uuid,
                        snaps[i as int].1.key.origin,
                        snaps[i as int].1.history.len() > 1,
                        hist.take(j as int + 1),
                    ) == moves_of(
                        self.data_path@,
                        snaps[i as int].1.uuid,
                        snaps[i as int].1.key.origin,
                        snaps[i as int].1.history.len() > 1,
                        hist.take(j as int),
                    ) + seq![
                        version_move(
                            self.data_path@,
                            snaps[i as int].1.uuid,
                            snaps[i as int].1.key.origin,
                            snaps[i as int].1.history.len() > 1,
                            hist[j as int],
                        ),
                    ]);
                    assert(steps_model(steps@) =~= plan_of(self.data_path@, snaps.take(i as int))
                        + moves_of(
                        self.data_path@,
                        snaps[i as int].1.uuid,
                        snaps[i as int].1.key.origin,
                        snaps[i as int].1.history.len() > 1,
                        hist.take(j as int + 1),
                    ));
                }
                j += 1;
            }
            proof {
                assert(hist.take(m as int) =~= hist);
            }
            let ghost before_close = steps@;
            if emptied {
                steps.push(RestoreStep::RemoveDir(container_dir));
                proof {
                    assert(steps@.last()@ == RestoreStepModel::RemoveDir(joined(
                        self.data_path@,
                        snaps[i as int].1.uuid,
                    )));
                    assert(steps_model(steps@) =~= steps_model(before_close) + seq![
                        steps@.last()@,
                    ]);
                }
            }
            proof {
                assert(snapshot_steps(self.data_path@, snaps[i as int]) == moves_of(
                    self.data_path@,
                    snaps[i as int].1.uuid,
                    snaps[i as int].1.key.origin,
                    snaps[i as int].1.history.len() > 1,
                    snaps[i as int].1.history,
                ) + if snaps[i as int].0 {
                    seq![RestoreStepModel::RemoveDir(joined(self.data_path@, snaps[i as int].1.uuid))]
                } else {
                    Seq::<RestoreStepModel>::empty()
                });
                assert(steps_model(steps@) =~= plan_of(self.data_path@, snaps.take(i as int + 1)));
            }
            i += 1;
        }
        proof {
            assert(snaps.take(n as int) =~= snaps);
        }
        Ok(steps)
    }

    /// The entries whose name the pattern matches, in index order, as
    /// snapshots for display.
    pub fn list(&self, pattern: &Pattern) -> (r: Vec<Entry>)
        ensures
            model_of(r@) == listed(self.entries_view(), pattern@),
    {
        let entries = self.cache.entries();
        let n: usize = entries.len();
        let mut r: Vec<Entry> = Vec::new();
        let mut i: usize = 0;
        proof {
            assert(model_of(r@) =~= listed(self.entries_view().take(0), pattern@));
        }
        #[verifier::loop_isolation(false)]
        while i < n
            invariant
                n == entries@.len(),
                0 <= i <= n,
                model_of(entries@) == self.entries_view(),
                model_of(r@) == listed(self.entries_view().take(i as int), pattern@),
            decreases n - i,
        {
            proof {
                assert(self.entries_view().take(i as int + 1).drop_last()
                    =~= self.entries_view().take(i as int));
                assert(self.entries_view().take(i as int + 1).last() == self.entries_view()[i as int]);
            }
            if pattern.is_match(entries[i].key().name().as_str()) {
                r.push(entries[i].clone());
            }
            proof {
                assert(model_of(r@) =~= listed(self.entries_view().take(i as int + 1), pattern@));
            }
            i += 1;
        }
        proof {
            assert(self.entries_view().take(n as int) =~= self.entries_view());
        }
        r
    }

    /// Plans an emptying: drains every entry in full and answers with the
    /// container directories to remove. Fails, leaving the index
    /// unchanged, if and only if the trash is already empty.
    pub fn empty(&mut self) -> (r: Result<Vec<String>, Error>)
        requires
            old(self).wf(),
        ensures
            final(self).wf(),
            final(self).data_view() == old(self).data_view(),
            final(self).settings_view() == old(self).settings_view(),
            match r {
                Ok(dirs) => {
                    &&& old(self).entries_view().len() > 0
                    &&& final(self).entries_view() == Seq::<EntryModel>::empty()
                    &&& dirs.deep_view() == container_dirs(
                        old(self).data_view(),
                        old(self).entries_view(),
                    )
                },
                Err(e) => {
                    &&& old(self).entries_view().len() == 0
                    &&& e is MissingTargetPredicate
                    &&& final(self).entries_view() == old(self).entries_view()
                },
            },
    {
        let ghost before = self.cache@;
        let popped = match self.cache.pop(KeySelector::Any, VersionPredicate::All) {
            Ok(popped) => popped,
            Err(e) => {
                proof {
                    assert(before.len() == 0) by {
                        if before.len() > 0 {
                            assert(selected(KeySelector::Any, before[0].key));
                        }
                    }
                }
                return Err(e);
            },
        };
        proof {
            lemma_pop_any_all(before);
            assert(before.len() > 0) by {
                assert(any_selected(before, KeySelector::Any));
            }
            lemma_pop_remaining_any_all(before);
        }
        let ghost snaps = popped@.map_values(|s: (bool, Entry)| (s.0, s.1@));
        let mut dirs: Vec<String> = Vec::new();
        let n: usize = popped.len();
        let mut i: usize = 0;
        proof {
            assert(dirs.deep_view() =~= container_dirs(self.data_path@, before.take(0)));
        }
        #[verifier::loop_isolation(false)]
        while i < n
            invariant
                n == popped@.len(),
                0 <= i <= n,
                n == before.len(),
                snaps == popped@.map_values(|s: (bool, Entry)| (s.0, s.1@)),
                snaps == pop_snapshots(before, KeySelector::Any, VersionPredicate::All),
                forall|k: int| 0 <= k < n ==> (#[trigger] snaps[k]).1.uuid == before[k].uuid,
                dirs.deep_view() == container_dirs(self.data_path@, before.take(i as int)),
            decreases n - i,
        {
            proof {
                assert(before.take(i as int + 1).drop_last() =~= before.take(i as int));
                assert(before.take(i as int + 1).last() == before[i as int]);
                assert(snaps[i as int] == (popped@[i as int].0, popped@[i as int].1@));
            }
            let dir = join_path(self.data_path.as_str(), popped[i].1.uuid().as_str());
            dirs.push(dir);
            proof {
                assert(dirs.deep_view() =~= container_dirs(
                    self.data_path@,
                    before.take(i as int + 1),
                ));
            }
            i += 1;
        }
        proof {
            assert(before.take(n as int) =~= before);
        }
        Ok(dirs)
    }

    /// The unicode glyph when unicode output is enabled, the plain text
    /// otherwise.
    pub fn unicode<'a>(&self, unicode: &'a str, ascii: &'a str) -> (r: &'a str)
        ensures
            r@ == if self.settings_view().use_unicode {
                unicode@
            } else {
                ascii@
            },
    {
        if self.settings.use_unicode() {
            unicode
        } else {
            ascii
        }
    }
}

/// Draining everything with the all-matching selectors snapshots each
/// entry in full, flagged as emptied, in index order.
proof fn lemma_pop_any_all(entries: Seq<EntryModel>)
    ensures
        pop_snapshots(entries, KeySelector::Any, VersionPredicate::All).len() == entries.len(),
        forall|i: int|
            0 <= i < entries.len() ==> (#[trigger] pop_snapshots(
                entries,
                KeySelector::Any,
                VersionPredicate::All,
            )[i]) == (true, entries[i]),
    decreases entries.len(),
{
    if entries.len() > 0 {
        lemma_pop_any_all(entries.drop_last());
        assert(kept_all_len_zero(entries.last()));
    }
}

/// The kept versions of a fully drained history are none.
spec fn kept_all_len_zero(e: EntryModel) -> bool {
    crate::cache::kept_versions(VersionPredicate::All, e.history).len() == 0
}

/// Draining everything with the all-matching selectors leaves nothing.
proof fn lemma_pop_remaining_any_all(entries: Seq<EntryModel>)
    ensures
        pop_remaining(entries, KeySelector::Any, VersionPredicate::All) == Seq::<
            EntryModel,
        >::empty(),
    decreases entries.len(),
{
    if entries.len() > 0 {
        lemma_pop_remaining_any_all(entries.drop_last());
        assert(pop_remaining(entries, KeySelector::Any, VersionPredicate::All) =~= Seq::<
            EntryModel,
        >::empty());
    }
}

} // verus!
