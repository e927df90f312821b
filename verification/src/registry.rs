use vstd::prelude::*;
use crate::profile::{KubeConfig, ProfileView};
use crate::RegistryError;

verus! {

/// The mathematical value of the registry: a map from profile name to
/// profile value, and the optional name of the current selection.
#[verifier::ext_equal]
pub ghost struct RegistryView {
    pub profiles: Map<Seq<char>, ProfileView>,
    pub current: Option<Seq<char>>,
}

/// The registry of named connection profiles together with the single
/// current selection.
///
/// Profiles are held as a vector of name/profile pairs whose names are
/// pairwise distinct; the order of the pairs carries no meaning. The fields
/// are exposed for the snapshot codec; every operation requires and
/// preserves `wf`.
#[derive(Debug, PartialEq, Eq)]
pub struct AppState {
    pub configs: Vec<(String, KubeConfig)>,
    pub current_config: Option<String>,
}

/// The pairs of a stored vector, each reduced to its mathematical value.
pub open spec fn entry_views(s: Seq<(String, KubeConfig)>) -> Seq<(Seq<char>, ProfileView)> {
    s.map_values(|p: (String, KubeConfig)| (p.0@, p.1@))
}

/// No two entries share a name.
pub open spec fn unique_names(e: Seq<(Seq<char>, ProfileView)>) -> bool {
    forall|i: int, j: int| 0 <= i < j < e.len() ==> e[i].0 != e[j].0
}

/// The map described by a sequence of name/profile entries; a later entry
/// for a name supersedes an earlier one.
pub open spec fn map_of(e: Seq<(Seq<char>, ProfileView)>) -> Map<Seq<char>, ProfileView>
    decreases e.len(),
{
    if e.len() == 0 {
        Map::<Seq<char>, ProfileView>::empty()
    } else {
        map_of(e.drop_last()).insert(e.last().0, e.last().1)
    }
}

pub proof fn lemma_map_of_contains(e: Seq<(Seq<char>, ProfileView)>, k: Seq<char>)
    ensures
        map_of(e).contains_key(k) <==> exists|i: int| 0 <= i < e.len() && e[i].0 == k,
    decreases e.len(),
{
    if e.len() == 0 {
    } else {
        lemma_map_of_contains(e.drop_last(), k);
        if e.last().0 == k {
            assert(e[e.len() - 1].0 == k);
        } else {
            if map_of(e).contains_key(k) {
                let i = choose|i: int| 0 <= i < e.drop_last().len() && e.drop_last()[i].0 == k;
                assert(e[i].0 == k);
            }
            if exists|i: int| 0 <= i < e.len() && e[i].0 == k {
                let i = choose|i: int| 0 <= i < e.len() && e[i].0 == k;
                assert(i < e.len() - 1);
                assert(e.drop_last()[i].0 == k);
            }
        }
    }
}

pub proof fn lemma_unique_drop_last(e: Seq<(Seq<char>, ProfileView)>)
    requires
        unique_names(e),
        e.len() > 0,
    ensures
        unique_names(e.drop_last()),
{
    assert forall|i: int, j: int|
        0 <= i < j < e.drop_last().len() implies e.drop_last()[i].0 != e.drop_last()[j].0 by {
        assert(e[i].0 != e[j].0);
    }
}

pub proof fn lemma_map_of_lookup(e: Seq<(Seq<char>, ProfileView)>, i: int)
    requires
        unique_names(e),
        0 <= i < e.len(),
    ensures
        map_of(e).contains_key(e[i].0),
        map_of(e)[e[i].0] == e[i].1,
    decreases e.len(),
{
    if i == e.len() - 1 {
    } else {
        lemma_unique_drop_last(e);
        lemma_map_of_lookup(e.drop_last(), i);
        assert(e.drop_last()[i] == e[i]);
        assert(e[i].0 != e.last().0);
    }
}

pub proof fn lemma_unique_remove(e: Seq<(Seq<char>, ProfileView)>, i: int)
    requires
        unique_names(e),
        0 <= i < e.len(),
    ensures
        unique_names(e.remove(i)),
        forall|j: int| 0 <= j < e.remove(i).len() ==> e.remove(i)[j].0 != e[i].0,
{
    e.remove_ensures(i);
    assert forall|a: int, b: int|
        0 <= a < b < e.remove(i).len() implies e.remove(i)[a].0 != e.remove(i)[b].0 by {
        let a0: int = if a < i { a } else { a + 1 };
        let b0: int = if b < i { b } else { b + 1 };
        assert(e.remove(i)[a] == e[a0]);
        assert(e.remove(i)[b] == e[b0]);
        assert(e[a0].0 != e[b0].0);
    }
    assert forall|j: int| 0 <= j < e.remove(i).len() implies e.remove(i)[j].0 != e[i].0 by {
        let j0: int = if j < i { j } else { j + 1 };
        assert(e.remove(i)[j] == e[j0]);
        assert(e[j0].0 != e[i].0);
    }
}

pub proof fn lemma_map_of_remove(e: Seq<(Seq<char>, ProfileView)>, i: int)
    requires
        unique_names(e),
        0 <= i < e.len(),
    ensures
        map_of(e.remove(i)) == map_of(e).remove(e[i].0),
    decreases e.len(),
{
    lemma_unique_drop_last(e);
    if i == e.len() - 1 {
        assert(e.remove(i) =~= e.drop_last());
        assert forall|j: int|
            0 <= j < e.drop_last().len() implies e.drop_last()[j].0 != e.last().0 by {
            assert(e[j].0 != e[e.len() - 1].0);
        }
        lemma_map_of_contains(e.drop_last(), e.last().0);
        assert(!map_of(e.drop_last()).contains_key(e.last().0));
        assert(map_of(e.drop_last()).insert(e.last().0, e.last().1).remove(e.last().0)
            =~= map_of(e.drop_last()));
    } else {
        let d = e.drop_last();
        assert(e.remove(i).drop_last() =~= d.remove(i));
        assert(e.remove(i).last() == e.last());
        assert(e.remove(i).len() == e.len() - 1 > 0);
        lemma_map_of_remove(d, i);
        assert(d[i] == e[i]);
        assert(e[i].0 != e.last().0);
        assert(map_of(d).remove(e[i].0).insert(e.last().0, e.last().1)
            =~= map_of(d).insert(e.last().0, e.last().1).remove(e[i].0));
        assert(map_of(e.remove(i)) == map_of(d.remove(i)).insert(e.last().0, e.last().1));
    }
}

pub proof fn lemma_map_of_push(e: Seq<(Seq<char>, ProfileView)>, k: Seq<char>, v: ProfileView)
    ensures
        map_of(e.push((k, v))) == map_of(e).insert(k, v),
{
    assert(e.push((k, v)).drop_last() =~= e);
    assert(e.push((k, v)).last() == (k, v));
}

/// The registry state after a store under `name`.
pub open spec fn put_t(v: RegistryView, name: Seq<char>, p: ProfileView) -> RegistryView {
    RegistryView { profiles: v.profiles.insert(name, p), current: v.current }
}

/// The registry state after a removal of `name`: the entry is gone, and a
/// selection of that same name is cleared with it.
pub open spec fn remove_t(v: RegistryView, name: Seq<char>) -> RegistryView {
    RegistryView {
        profiles: v.profiles.remove(name),
        current: if v.current == Some(name) {
            None
        } else {
            v.current
        },
    }
}

/// The registry state after a selection request: `None` always clears the
/// selection; a present name must resolve, and an unknown one changes
/// nothing.
pub open spec fn select_t(v: RegistryView, name: Option<Seq<char>>) -> RegistryView {
    match name {
        None => RegistryView { profiles: v.profiles, current: None },
        Some(n) => if v.profiles.contains_key(n) {
            RegistryView { profiles: v.profiles, current: Some(n) }
        } else {
            v
        },
    }
}

/// The profile stored under `name`, if any.
pub open spec fn spec_lookup(v: RegistryView, name: Seq<char>) -> Option<ProfileView> {
    if v.profiles.contains_key(name) {
        Some(v.profiles[name])
    } else {
        None
    }
}

/// What the current-selection accessor observes: the selected name together
/// with its profile, and nothing when there is no selection or the selected
/// name no longer resolves.
pub open spec fn spec_current(v: RegistryView) -> Option<(Seq<char>, ProfileView)> {
    match v.current {
        Some(n) => match spec_lookup(v, n) {
            Some(p) => Some((n, p)),
            None => None,
        },
        None => None,
    }
}

impl AppState {
    /// The entries of the registry, in storage order.
    pub open spec fn entries(self) -> Seq<(Seq<char>, ProfileView)> {
        entry_views(self.configs@)
    }

    /// Well-formedness: stored names are pairwise distinct.
    pub open spec fn wf(self) -> bool {
        unique_names(self.entries())
    }

    pub open spec fn view(self) -> RegistryView {
        RegistryView {
            profiles: map_of(self.entries()),
            current: match self.current_config {
                Some(s) => Some(s@),
                None => None,
            },
        }
    }

    /// An empty registry with no selection.
    pub fn new() -> (r: Self)
        ensures
            r.wf(),
            r@.profiles == Map::<Seq<char>, ProfileView>::empty(),
            r@.current is None,
    {
        AppState { configs: Vec::new(), current_config: None }
    }

    fn find_index(&self, key: &str) -> (r: Option<usize>)
        ensures
            match r {
                Some(i) => i < self.configs@.len() && self.configs@[i as int].0@ == key@,
                None => forall|i: int|
                    0 <= i < self.configs@.len() ==> self.configs@[i].0@ != key@,
            },
    {
        let k: String = key.to_owned();
        let mut i: usize = 0;
        while i < self.configs.len()
            invariant
                i <= self.configs@.len(),
                k@ == key@,
                forall|j: int| 0 <= j < i ==> self.configs@[j].0@ != key@,
            decreases self.configs@.len() - i,
        {
            if self.configs[i].0 == k {
                return Some(i);
            }
            i = i + 1;
        }
        None
    }

    /// Stores `config` under `key`, inserting or overwriting unconditionally,
    /// and returns the value stored. The selection is untouched.
    pub fn put_compat_config(&mut self, key: &str, config: KubeConfig) -> (r: KubeConfig)
        requires
            old(self).wf(),
        ensures
            final(self).wf(),
            final(self)@ == put_t(old(self)@, key@, config@),
            r@ == config@,
    {
        let ghost e0 = self.entries();
        match self.find_index(key) {
            Some(i) => {
                proof {
                    assert(e0[i as int].0 == key@);
                    lemma_map_of_remove(e0, i as int);
                    lemma_unique_remove(e0, i as int);
                }
                self.configs.remove(i);
                proof {
                    assert(self.entries() =~= e0.remove(i as int));
                }
            },
            None => {
                proof {
                    lemma_map_of_contains(e0, key@);
                    assert(map_of(e0).remove(key@) =~= map_of(e0));
                    assert forall|j: int| 0 <= j < e0.len() implies e0[j].0 != key@ by {
                        assert(self.configs@[j].0@ != key@);
                    }
                }
            },
        }
        let ghost e1 = self.entries();
        proof {
            assert(unique_names(e1));
            assert(forall|j: int| 0 <= j < e1.len() ==> e1[j].0 != key@);
            assert(map_of(e1) == map_of(e0).remove(key@));
        }
        let name: String = key.to_owned();
        let r = config.clone();
        self.configs.push((name, config));
        proof {
            assert(self.entries() =~= e1.push((key@, r@)));
            lemma_map_of_push(e1, key@, r@);
            assert(map_of(e0).remove(key@).insert(key@, r@) =~= map_of(e0).insert(key@, r@));
            assert forall|a: int, b: int|
                0 <= a < b < self.entries().len()
                implies self.entries()[a].0 != self.entries()[b].0 by {
                if b == e1.len() {
                    assert(self.entries()[a].0 == e1[a].0);
                    assert(e1[a].0 != key@);
                } else {
                    assert(e1[a].0 != e1[b].0);
                }
            }
            assert(self@ =~= put_t(old(self)@, key@, r@));
        }
        r
    }

    /// Selects `value` as the current profile: `None` clears the selection
    /// and succeeds; a present name must already be stored, and becomes the
    /// selection with a copy of its profile returned; an unknown name leaves
    /// the registry unchanged and fails with `UnknownProfile`.
    pub fn set_current_config(&mut self, value: Option<String>) -> (r: Result<
        Option<KubeConfig>,
        RegistryError,
    >)
        requires
            old(self).wf(),
        ensures
            final(self).wf(),
            final(self)@ == select_t(
                old(self)@,
                match value {
                    Some(s) => Some(s@),
                    None => None::<Seq<char>>,
                },
            ),
            match value {
                None => r matches Ok(None),
                Some(name) => {
                    if old(self)@.profiles.contains_key(name@) {
                        r matches Ok(Some(p)) && p@ == old(self)@.profiles[name@]
                    } else {
                        r matches Err(e) && e == RegistryError::UnknownProfile
                    }
                },
            },
    {
        match value {
            None => {
                self.current_config = None;
                Ok(None)
            },
            Some(name) => {
                match self.find_index(name.as_str()) {
                    Some(i) => {
                        proof {
                            assert(self.entries()[i as int].0 == name@);
                            lemma_map_of_lookup(self.entries(), i as int);
                        }
                        let p = self.configs[i].1.clone();
                        self.current_config = Some(name);
                        Ok(Some(p))
                    },
                    None => {
                        proof {
                            lemma_map_of_contains(self.entries(), name@);
                        }
                        Err(RegistryError::UnknownProfile)
                    },
                }
            },
        }
    }

    /// Reads the current selection: its name and a copy of its profile, or
    /// `None` when nothing is selected or the selected name no longer
    /// resolves.
    pub fn get_current_config(&self) -> (r: Option<(String, KubeConfig)>)
        requires
            self.wf(),
        ensures
            match r {
                Some((n, p)) => spec_current(self@) == Some((n@, p@)),
                None => spec_current(self@) is None,
            },
    {
        match &self.current_config {
            None => None,
            Some(cur) => {
                match self.find_index(cur.as_str()) {
                    Some(i) => {
                        proof {
                            assert(self.entries()[i as int].0 == cur@);
                            lemma_map_of_lookup(self.entries(), i as int);
                        }
                        Some((cur.clone(), self.configs[i].1.clone()))
                    },
                    None => {
                        proof {
                            lemma_map_of_contains(self.entries(), cur@);
                        }
                        None
                    },
                }
            },
        }
    }

    /// Looks up one profile by name, returning a copy.
    pub fn select_config(&self, key: &str) -> (r: Option<KubeConfig>)
        requires
            self.wf(),
        ensures
            match r {
                Some(p) => spec_lookup(self@, key@) == Some(p@),
                None => spec_lookup(self@, key@) is None,
            },
    {
        match self.find_index(key) {
            Some(i) => {
                proof {
                    assert(self.entries()[i as int].0 == key@);
                    lemma_map_of_lookup(self.entries(), i as int);
                }
                Some(self.configs[i].1.clone())
            },
            None => {
                proof {
                    lemma_map_of_contains(self.entries(), key@);
                }
                None
            },
        }
    }

    /// Returns a full copy of the stored entries; the caller's copy shares
    /// nothing with the registry. Names are pairwise distinct and each is
    /// paired with the profile most recently stored under it.
    pub fn get_configs(&self) -> (r: Vec<(String, KubeConfig)>)
        requires
            self.wf(),
        ensures
            entry_views(r@) == self.entries(),
            unique_names(entry_views(r@)),
            map_of(entry_views(r@)) == self@.profiles,
    {
        let mut out: Vec<(String, KubeConfig)> = Vec::new();
        let mut i: usize = 0;
        while i < self.configs.len()
            invariant
                i <= self.configs@.len(),
                out@.len() == i,
                forall|j: int|
                    0 <= j < i ==> (#[trigger] out@[j]).0@ == self.configs@[j].0@
                        && out@[j].1@ == self.configs@[j].1@,
            decreases self.configs@.len() - i,
        {
            let name = self.configs[i].0.clone();
            let prof = self.configs[i].1.clone();
            out.push((name, prof));
            i = i + 1;
        }
        proof {
            assert(entry_views(out@) =~= self.entries());
        }
        out
    }

    /// Removes the named profile if present; removal of an absent name
    /// changes nothing. A selection of the removed name is cleared as part
    /// of the same operation.
    pub fn remove_config(&mut self, key: &str)
        requires
            old(self).wf(),
        ensures
            final(self).wf(),
            final(self)@ == remove_t(old(self)@, key@),
    {
        let k: String = key.to_owned();
        let clear = match &self.current_config {
            Some(ck) => *ck == k,
            None => false,
        };
        if clear {
            self.current_config = None;
        }
        let ghost e0 = self.entries();
        match self.find_index(key) {
            Some(i) => {
                proof {
                    assert(e0[i as int].0 == key@);
                    lemma_map_of_remove(e0, i as int);
                    lemma_unique_remove(e0, i as int);
                }
                self.configs.remove(i);
                proof {
                    assert(self.entries() =~= e0.remove(i as int));
                }
            },
            None => {
                proof {
                    lemma_map_of_contains(e0, key@);
                    assert forall|j: int| 0 <= j < e0.len() implies e0[j].0 != key@ by {
                        assert(self.configs@[j].0@ != key@);
                    }
                    assert(map_of(e0).remove(key@) =~= map_of(e0));
                }
            },
        }
        proof {
            assert(self@ =~= remove_t(old(self)@, key@));
        }
    }
}

/// After repeated stores under one name, the registry holds the profile of
/// the last store for that name, other names are untouched, and the earlier
/// store leaves no second entry behind.
pub proof fn lemma_put_uniqueness(
    v: RegistryView,
    name: Seq<char>,
    p1: ProfileView,
    p2: ProfileView,
)
    ensures
        put_t(put_t(v, name, p1), name, p2) == put_t(v, name, p2),
        spec_lookup(put_t(v, name, p2), name) == Some(p2),
        forall|other: Seq<char>|
            other != name ==> spec_lookup(put_t(v, name, p2), other) == spec_lookup(v, other),
{
    assert(v.profiles.insert(name, p1).insert(name, p2) =~= v.profiles.insert(name, p2));
    assert(put_t(put_t(v, name, p1), name, p2) =~= put_t(v, name, p2));
}

/// The registry state after a whole sequence of stores, applied in order.
pub open spec fn apply_puts(v: RegistryView, puts: Seq<(Seq<char>, ProfileView)>) -> RegistryView
    decreases puts.len(),
{
    if puts.len() == 0 {
        v
    } else {
        put_t(apply_puts(v, puts.drop_last()), puts.last().0, puts.last().1)
    }
}

/// The profile of the most recent store under `name` in a sequence of
/// stores, if the sequence stores under that name at all.
pub open spec fn last_put_for(puts: Seq<(Seq<char>, ProfileView)>, name: Seq<char>) -> Option<
    ProfileView,
>
    decreases puts.len(),
{
    if puts.len() == 0 {
        None
    } else if puts.last().0 == name {
        Some(puts.last().1)
    } else {
        last_put_for(puts.drop_last(), name)
    }
}

/// After any sequence of stores, each name resolves to the profile of the
/// most recent store under it — or to what it held before, where the
/// sequence never stored under it — and the selection is untouched. One
/// entry per name in the listing is the well-formedness the operations
/// preserve.
pub proof fn lemma_put_sequence(
    v: RegistryView,
    puts: Seq<(Seq<char>, ProfileView)>,
    name: Seq<char>,
)
    ensures
        spec_lookup(apply_puts(v, puts), name) == (match last_put_for(puts, name) {
            Some(p) => Some(p),
            None => spec_lookup(v, name),
        }),
        apply_puts(v, puts).current == v.current,
    decreases puts.len(),
{
    if puts.len() == 0 {
    } else {
        lemma_put_sequence(v, puts.drop_last(), name);
    }
}

/// Whenever the current-selection accessor observes a name, a lookup of
/// that name observes the same profile: the selection never dangles as seen
/// by callers.
pub proof fn lemma_selection_valid(v: RegistryView)
    ensures
        spec_current(v) matches Some((name, p)) ==> spec_lookup(v, name) == Some(p),
{
}

/// Removing a name twice is the same as removing it once: the second
/// removal neither fails nor changes the state.
pub proof fn lemma_remove_idempotent(v: RegistryView, name: Seq<char>)
    ensures
        remove_t(remove_t(v, name), name) == remove_t(v, name),
{
    assert(v.profiles.remove(name).remove(name) =~= v.profiles.remove(name));
    assert(remove_t(remove_t(v, name), name) =~= remove_t(v, name));
}

/// Clearing the selection always succeeds: afterwards no selection is
/// observable, whatever the prior state, and the stored profiles are
/// untouched.
pub proof fn lemma_clear_selection(v: RegistryView)
    ensures
        select_t(v, None).current is None,
        spec_current(select_t(v, None)) is None,
        select_t(v, None).profiles == v.profiles,
{
}

} // verus!
