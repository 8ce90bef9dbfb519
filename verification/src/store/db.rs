//! The keyspace: every key and value the server holds.
use crate::store::value::RedisValue;
use vstd::hash_map::StringHashMap;
use vstd::prelude::*;

verus! {

/// The keyspace: every key and value this server holds.
///
/// Knows nothing about RESP or sockets. Keys are text; each key holds at most
/// one value.
pub struct Db {
    map: StringHashMap<RedisValue>,
}

impl View for Db {
    /// Each key, as text, mapped to the bytes stored under it.
    type V = Map<Seq<char>, Seq<u8>>;

    closed spec fn view(&self) -> Map<Seq<char>, Seq<u8>> {
        self.map@.map_values(|v: RedisValue| v@)
    }
}

impl Default for Db {
    /// An empty keyspace.
    fn default() -> (r: Db)
        ensures
            r@ == Map::<Seq<char>, Seq<u8>>::empty(),
    {
        let r = Db { map: StringHashMap::new() };
        assert(r@ =~= Map::<Seq<char>, Seq<u8>>::empty());
        r
    }
}

impl Db {
    /// Looks up a key. `None` means there is no such key.
    ///
    /// Hands back a reference, not a copy: a value could be megabytes.
    pub fn get(&self, key: &str) -> (r: Option<&RedisValue>)
        ensures
            match r {
                Some(v) => self@.contains_key(key@) && v@ == self@[key@],
                None => !self@.contains_key(key@),
            },
    {
        self.map.get(key)
    }

    /// Stores a value, replacing anything already under that key, and hands
    /// back the value that was there before.
    pub fn set(&mut self, key: String, value: RedisValue) -> (r: Option<RedisValue>)
        ensures
            final(self)@ == old(self)@.insert(key@, value@),
            match r {
                Some(v) => old(self)@.contains_key(key@) && v@ == old(self)@[key@],
                None => !old(self)@.contains_key(key@),
            },
    {
        let previous = match self.map.get(key.as_str()) {
            Some(v) => Some(v.duplicate()),
            None => None,
        };
        let ghost k = key@;
        let ghost v = value@;
        self.map.insert(key, value);
        assert(self@ =~= old(self)@.insert(k, v));
        previous
    }

    /// Removes a key and hands back what was stored, so the caller can tell
    /// "deleted one" from "there was nothing to delete".
    pub fn del(&mut self, key: &str) -> (r: Option<RedisValue>)
        ensures
            final(self)@ == old(self)@.remove(key@),
            match r {
                Some(v) => old(self)@.contains_key(key@) && v@ == old(self)@[key@],
                None => !old(self)@.contains_key(key@),
            },
    {
        let previous = match self.map.get(key) {
            Some(v) => Some(v.duplicate()),
            None => None,
        };
        self.map.remove(key);
        assert(self@ =~= old(self)@.remove(key@));
        previous
    }

    /// Is this key present?
    pub fn key_exists(&self, key: &str) -> (r: bool)
        ensures
            r == self@.contains_key(key@),
    {
        self.map.contains_key(key)
    }

    /// The stored value's type name, or `None` when the key is missing.
    ///
    /// Redis reports a missing key as the word `none`, but that is the
    /// command's wording to choose, not the store's.
    pub fn type_of(&self, key: &str) -> (r: Option<&str>)
        ensures
            match r {
                Some(name) => self@.contains_key(key@) && name@ == "string"@,
                None => !self@.contains_key(key@),
            },
    {
        match self.map.get(key) {
            Some(value) => Some(value.type_label()),
            None => None,
        }
    }
}

/// What `set` stores is what `get` then finds under that key, and no other
/// key is touched.
pub proof fn law_get_after_set(
    before: Map<Seq<char>, Seq<u8>>,
    key: Seq<char>,
    value: Seq<u8>,
    other: Seq<char>,
)
    requires
        other != key,
    ensures
        before.insert(key, value).contains_key(key),
        before.insert(key, value)[key] == value,
        before.insert(key, value).contains_key(other) == before.contains_key(other),
        before.contains_key(other) ==> before.insert(key, value)[other] == before[other],
{
}

/// After `del`, the key is gone (`key_exists` is false, `get` finds nothing),
/// and no other key is touched.
pub proof fn law_gone_after_del(before: Map<Seq<char>, Seq<u8>>, key: Seq<char>, other: Seq<char>)
    requires
        other != key,
    ensures
        !before.remove(key).contains_key(key),
        before.remove(key).contains_key(other) == before.contains_key(other),
        before.contains_key(other) ==> before.remove(key)[other] == before[other],
{
}

/// One change to the keyspace, as `set` and `del` make them.
pub enum Change {
    SetKey(Seq<char>, Seq<u8>),
    DelKey(Seq<char>),
}

/// The keyspace after one change: `set` stores, `del` removes.
pub open spec fn apply_change(db: Map<Seq<char>, Seq<u8>>, c: Change) -> Map<Seq<char>, Seq<u8>> {
    match c {
        Change::SetKey(k, v) => db.insert(k, v),
        Change::DelKey(k) => db.remove(k),
    }
}

/// The keyspace after a run of changes, first to last.
pub open spec fn replay(db: Map<Seq<char>, Seq<u8>>, changes: Seq<Change>) -> Map<
    Seq<char>,
    Seq<u8>,
>
    decreases changes.len(),
{
    if changes.len() == 0 {
        db
    } else {
        apply_change(replay(db, changes.drop_last()), changes.last())
    }
}

/// The key a change is about.
pub open spec fn changed_key(c: Change) -> Seq<char> {
    match c {
        Change::SetKey(k, _) => k,
        Change::DelKey(k) => k,
    }
}

/// The last change of the run that is about `key`, if any.
pub open spec fn last_change_of(changes: Seq<Change>, key: Seq<char>) -> Option<Change>
    decreases changes.len(),
{
    if changes.len() == 0 {
        None
    } else if changed_key(changes.last()) == key {
        Some(changes.last())
    } else {
        last_change_of(changes.drop_last(), key)
    }
}

/// After any run of `set` and `del` calls, a key holds what its last `set`
/// stored when no `del` came after it, is gone when its last change was a
/// `del`, and is as it was before the run when nothing touched it.
pub proof fn law_a_key_holds_its_last_set(
    db: Map<Seq<char>, Seq<u8>>,
    changes: Seq<Change>,
    key: Seq<char>,
)
    ensures
        match last_change_of(changes, key) {
            Some(Change::SetKey(_, v)) => replay(db, changes).contains_key(key) && replay(
                db,
                changes,
            )[key] == v,
            Some(Change::DelKey(_)) => !replay(db, changes).contains_key(key),
            None => replay(db, changes).contains_key(key) == db.contains_key(key) && (
            db.contains_key(key) ==> replay(db, changes)[key] == db[key]),
        },
    decreases changes.len(),
{
    if changes.len() > 0 {
        law_a_key_holds_its_last_set(db, changes.drop_last(), key);
    }
}

/// Starting from an empty keyspace, a key exists exactly when the last
/// `set` or `del` about it was a `set`; with neither, it does not.
pub proof fn law_key_exists_after_its_last_set(changes: Seq<Change>, key: Seq<char>)
    ensures
        replay(Map::empty(), changes).contains_key(key) <==> last_change_of(changes, key) matches Some(
            Change::SetKey(_, _),
        ),
{
    law_a_key_holds_its_last_set(Map::empty(), changes, key);
}

} // verus!
