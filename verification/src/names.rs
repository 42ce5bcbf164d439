//! Maps and sets keyed by interned names.
use fxhash::FxHashSet;
use rustc_hash::FxHashMap;
use vstd::prelude::*;

use crate::ir::NameId;

verus! {

/// The hasher behind [`rustc_hash::FxHashMap`].
#[verifier::external_type_specification]
#[verifier::external_body]
pub struct ExFxBuildHasher(rustc_hash::FxBuildHasher);

/// The hasher behind [`fxhash::FxHashSet`].
#[verifier::external_type_specification]
#[verifier::external_body]
pub struct ExFxHasher(fxhash::FxHasher);

/// The factory of hashers of a [`fxhash::FxHashSet`].
#[verifier::external_type_specification]
#[verifier::external_body]
#[verifier::reject_recursive_types(H)]
pub struct ExBuildHasherDefault<H>(std::hash::BuildHasherDefault<H>);

/// `FxHashMap::default`: the map starts out empty.
#[verifier::external_body]
fn fx_map_new<V>() -> (m: FxHashMap<usize, V>)
    ensures
        forall|k: usize| !m@.contains_key(k),
{
    FxHashMap::default()
}

/// `FxHashMap::insert`: the key is bound to the value from then on, and every
/// other key keeps what it was bound to.
#[verifier::external_body]
fn fx_map_insert<V>(m: &mut FxHashMap<usize, V>, key: usize, value: V)
    ensures
        final(m)@ == old(m)@.insert(key, value),
{
    m.insert(key, value);
}

/// `FxHashMap::get`: the value that the key is bound to, if it is bound.
#[verifier::external_body]
fn fx_map_get<V>(m: &FxHashMap<usize, V>, key: usize) -> (r: Option<&V>)
    ensures
        match r {
            Some(v) => m@.contains_key(key) && m@[key] == *v,
            None => !m@.contains_key(key),
        },
{
    m.get(&key)
}

/// `FxHashSet::default`: the set starts out empty.
#[verifier::external_body]
fn fx_set_new() -> (s: FxHashSet<usize>)
    ensures
        s@ == Set::<usize>::empty(),
{
    FxHashSet::default()
}

/// `FxHashSet::insert`: the item is in the set from then on; the result says
/// whether it was not there before.
#[verifier::external_body]
fn fx_set_insert(s: &mut FxHashSet<usize>, item: usize) -> (fresh: bool)
    ensures
        final(s)@ == old(s)@.insert(item),
        fresh == !old(s)@.contains(item),
{
    s.insert(item)
}

/// `FxHashSet::remove`: the item is not in the set from then on.
#[verifier::external_body]
fn fx_set_remove(s: &mut FxHashSet<usize>, item: usize)
    ensures
        final(s)@ == old(s)@.remove(item),
{
    s.remove(&item);
}

/// `FxHashSet::contains`: whether the item is in the set.
#[verifier::external_body]
fn fx_set_contains(s: &FxHashSet<usize>, item: usize) -> (r: bool)
    ensures
        r == s@.contains(item),
{
    s.contains(&item)
}

/// A map from interned names to values.
pub struct NameMap<V> {
    map: FxHashMap<usize, V>,
}

impl<V> View for NameMap<V> {
    type V = Map<NameId, V>;

    closed spec fn view(&self) -> Map<NameId, V> {
        Map::new(|n: NameId| self.map@.contains_key(n.0), |n: NameId| self.map@[n.0])
    }
}

impl<V> NameMap<V> {
    /// The empty map.
    pub fn new() -> (m: Self)
        ensures
            m@ == Map::<NameId, V>::empty(),
    {
        let m = NameMap { map: fx_map_new() };
        assert(m@ =~= Map::<NameId, V>::empty());
        m
    }

    /// Binds `name` to `value`.
    pub fn insert(&mut self, name: NameId, value: V)
        ensures
            final(self)@ == old(self)@.insert(name, value),
    {
        fx_map_insert(&mut self.map, name.0, value);
        assert(self@ =~= old(self)@.insert(name, value));
    }

    /// What `name` is bound to.
    pub fn get(&self, name: NameId) -> (r: Option<&V>)
        ensures
            match r {
                Some(v) => self@.contains_key(name) && self@[name] == *v,
                None => !self@.contains_key(name),
            },
    {
        fx_map_get(&self.map, name.0)
    }

    /// Whether `name` is bound.
    pub fn contains_key(&self, name: NameId) -> (r: bool)
        ensures
            r == self@.contains_key(name),
    {
        self.get(name).is_some()
    }
}

impl<V> Default for NameMap<V> {
    fn default() -> (m: Self)
        ensures
            m@ == Map::<NameId, V>::empty(),
    {
        NameMap::new()
    }
}

/// A set of interned names.
pub struct NameSet {
    set: FxHashSet<usize>,
}

impl View for NameSet {
    type V = Set<NameId>;

    closed spec fn view(&self) -> Set<NameId> {
        Set::new(|n: NameId| self.set@.contains(n.0))
    }
}

impl NameSet {
    /// The empty set.
    pub fn new() -> (s: Self)
        ensures
            s@ == Set::<NameId>::empty(),
    {
        let s = NameSet { set: fx_set_new() };
        assert(s@ =~= Set::<NameId>::empty());
        s
    }

    /// Adds `name`; says whether it was not there before.
    pub fn insert(&mut self, name: NameId) -> (fresh: bool)
        ensures
            final(self)@ == old(self)@.insert(name),
            fresh == !old(self)@.contains(name),
    {
        let fresh = fx_set_insert(&mut self.set, name.0);
        assert(self@ =~= old(self)@.insert(name));
        fresh
    }

    /// Takes `name` out of the set.
    pub fn remove(&mut self, name: NameId)
        ensures
            final(self)@ == old(self)@.remove(name),
    {
        fx_set_remove(&mut self.set, name.0);
        assert(self@ =~= old(self)@.remove(name));
    }

    /// Whether `name` is in the set.
    pub fn contains(&self, name: NameId) -> (r: bool)
        ensures
            r == self@.contains(name),
    {
        fx_set_contains(&self.set, name.0)
    }
}

impl Default for NameSet {
    fn default() -> (s: Self)
        ensures
            s@ == Set::<NameId>::empty(),
    {
        NameSet::new()
    }
}

} // verus!
