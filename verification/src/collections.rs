//! Hash tables keyed by numbers, on top of `hashbrown`.

use vstd::prelude::*;

verus! {

/// A set of numbers, held in a `hashbrown::HashSet`.
#[verifier::external_body]
pub struct IdSet {
    items: hashbrown::HashSet<u64>,
}

/// The numbers that a `hashbrown::HashSet<u64>` holds.
pub uninterp spec fn id_set_items(set: IdSet) -> Set<u64>;

impl View for IdSet {
    type V = Set<u64>;

    open spec fn view(&self) -> Set<u64> {
        id_set_items(*self)
    }
}

impl IdSet {
    /// `hashbrown::HashSet::new`: the set starts empty.
    #[verifier::external_body]
    pub(crate) fn new() -> (set: Self)
        ensures
            id_set_items(set) == Set::<u64>::empty(),
    {
        IdSet { items: hashbrown::HashSet::new() }
    }

    /// `hashbrown::HashSet::insert`: the item is in the set afterwards, and the
    /// result says whether it was absent before.
    #[verifier::external_body]
    pub(crate) fn insert(&mut self, item: u64) -> (fresh: bool)
        ensures
            id_set_items(*final(self)) == id_set_items(*old(self)).insert(item),
            fresh == !id_set_items(*old(self)).contains(item),
    {
        self.items.insert(item)
    }

    /// `hashbrown::HashSet::remove`: the item is not in the set afterwards, and
    /// the result says whether it was there before.
    #[verifier::external_body]
    pub(crate) fn remove(&mut self, item: u64) -> (present: bool)
        ensures
            id_set_items(*final(self)) == id_set_items(*old(self)).remove(item),
            present == id_set_items(*old(self)).contains(item),
    {
        self.items.remove(&item)
    }

    /// `hashbrown::HashSet::contains`: whether the item is in the set.
    #[verifier::external_body]
    pub(crate) fn contains(&self, item: u64) -> (present: bool)
        ensures
            present == id_set_items(*self).contains(item),
    {
        self.items.contains(&item)
    }
}

/// A map between numbers, held in a `hashbrown::HashMap`.
#[verifier::external_body]
pub struct IdMap {
    items: hashbrown::HashMap<u64, u64>,
}

/// The entries that a `hashbrown::HashMap<u64, u64>` holds.
pub uninterp spec fn id_map_items(map: IdMap) -> Map<u64, u64>;

impl View for IdMap {
    type V = Map<u64, u64>;

    open spec fn view(&self) -> Map<u64, u64> {
        id_map_items(*self)
    }
}

impl IdMap {
    /// `hashbrown::HashMap::new`: the map starts empty.
    #[verifier::external_body]
    pub(crate) fn new() -> (table: Self)
        ensures
            (id_map_items(table) == Map::<u64, u64>::empty()),
    {
        IdMap { items: hashbrown::HashMap::new() }
    }

    /// `hashbrown::HashMap::insert`: the key holds the item afterwards.
    #[verifier::external_body]
    pub(crate) fn insert(&mut self, key: u64, item: u64)
        ensures
            id_map_items(*final(self)) == id_map_items(*old(self)).insert(key, item),
    {
        self.items.insert(key, item);
    }

    /// `hashbrown::HashMap::get`: the item that the key holds, if any.
    #[verifier::external_body]
    pub(crate) fn get(&self, key: u64) -> (item: Option<u64>)
        ensures
            item == (if id_map_items(*self).dom().contains(key) {
                Some(id_map_items(*self)[key])
            } else {
                None
            }),
    {
        self.items.get(&key).copied()
    }
}

/// A map from rows of numbers to numbers, held in a `hashbrown::HashMap`.
#[verifier::external_body]
pub struct KeyMap {
    items: hashbrown::HashMap<Vec<u64>, u64>,
}

/// The entries that a `hashbrown::HashMap<Vec<u64>, u64>` holds.
pub uninterp spec fn key_map_items(map: KeyMap) -> Map<Seq<u64>, u64>;

impl View for KeyMap {
    type V = Map<Seq<u64>, u64>;

    open spec fn view(&self) -> Map<Seq<u64>, u64> {
        key_map_items(*self)
    }
}

impl KeyMap {
    /// `hashbrown::HashMap::new`: the map starts empty.
    #[verifier::external_body]
    pub(crate) fn new() -> (table: Self)
        ensures
            (key_map_items(table) == Map::<Seq<u64>, u64>::empty()),
    {
        KeyMap { items: hashbrown::HashMap::new() }
    }

    /// `hashbrown::HashMap::insert`: the key holds the item afterwards.
    #[verifier::external_body]
    pub(crate) fn insert(&mut self, key: Vec<u64>, item: u64)
        ensures
            key_map_items(*final(self)) == key_map_items(*old(self)).insert(key@, item),
    {
        self.items.insert(key, item);
    }

    /// `hashbrown::HashMap::get`: the item that the key holds, if any.
    #[verifier::external_body]
    pub(crate) fn get(&self, key: &Vec<u64>) -> (item: Option<u64>)
        ensures
            item == (if key_map_items(*self).dom().contains(key@) {
                Some(key_map_items(*self)[key@])
            } else {
                None
            }),
    {
        self.items.get(key).copied()
    }
}

} // verus!
