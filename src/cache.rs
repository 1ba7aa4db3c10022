//! The bounded hashtag cache: two LRU maps, name to id and id to name,
//! filled together.

use lru::LruCache;
use vstd::prelude::*;

verus! {

#[verifier::external_type_specification]
#[verifier::external_body]
#[verifier::reject_recursive_types(K)]
#[verifier::reject_recursive_types(V)]
#[verifier::reject_recursive_types(S)]
pub struct ExLruCache<K, V, S>(lru::LruCache<K, V, S>);

#[verifier::external_type_specification]
#[verifier::external_body]
pub struct ExDefaultHasher(lru::DefaultHasher);

/// The entries held by a name-to-id LRU cache.
pub uninterp spec fn tag_ids(c: LruCache<String, i64>) -> Map<Seq<char>, i64>;

/// The capacity that a name-to-id LRU cache was made with.
pub uninterp spec fn tag_id_cap(c: LruCache<String, i64>) -> nat;

/// The entries held by an id-to-name LRU cache.
pub uninterp spec fn tag_names(c: LruCache<i64, String>) -> Map<i64, Seq<char>>;

/// The capacity that an id-to-name LRU cache was made with.
pub uninterp spec fn tag_name_cap(c: LruCache<i64, String>) -> nat;

pub open spec fn no_ids() -> Map<Seq<char>, i64> {
    Map::empty()
}

pub open spec fn no_names() -> Map<i64, Seq<char>> {
    Map::empty()
}

/// Relies on `LruCache::new`: an empty cache that holds at most `cap` entries.
#[verifier::external_body]
fn new_id_lru(cap: usize) -> (r: LruCache<String, i64>)
    ensures
        tag_ids(r) == no_ids(),
        tag_id_cap(r) == cap,
{
    LruCache::new(cap)
}

/// Relies on `LruCache::new`: an empty cache that holds at most `cap` entries.
#[verifier::external_body]
fn new_name_lru(cap: usize) -> (r: LruCache<i64, String>)
    ensures
        tag_names(r) == no_names(),
        tag_name_cap(r) == cap,
{
    LruCache::new(cap)
}

/// Relies on `LruCache::put`: with a nonzero capacity the key then maps to
/// the value; every other entry kept was there before with the same value;
/// an existing key is updated in place, with no eviction; a full cache
/// evicts an entry to make room, so it never holds more than its capacity.
#[verifier::external_body]
fn put_id_lru(c: &mut LruCache<String, i64>, name: String, id: i64)
    ensures
        tag_id_cap(*final(c)) == tag_id_cap(*old(c)),
        tag_id_cap(*old(c)) > 0 ==> tag_ids(*final(c)).contains_key(name@),
        tag_id_cap(*old(c)) > 0 ==> tag_ids(*final(c))[name@] == id,
        tag_id_cap(*old(c)) == 0 ==> tag_ids(*final(c)) == tag_ids(*old(c)),
        forall|k: Seq<char>| #[trigger] tag_ids(*final(c)).contains_key(k) && k != name@
            ==> tag_ids(*old(c)).contains_key(k) && tag_ids(*final(c))[k] == tag_ids(*old(c))[k],
        tag_id_cap(*old(c)) > 0 && tag_ids(*old(c)).contains_key(name@) ==> tag_ids(*final(c))
            == tag_ids(*old(c)).insert(name@, id),
        tag_id_cap(*old(c)) > 0 && tag_ids(*old(c)).dom().finite() && tag_ids(*old(c)).len()
            <= tag_id_cap(*old(c)) ==> tag_ids(*final(c)).dom().finite() && tag_ids(*final(c)).len()
            <= tag_id_cap(*final(c)),
{
    c.put(name, id);
}

/// Relies on `LruCache::put`, as for the name-to-id cache.
#[verifier::external_body]
fn put_name_lru(c: &mut LruCache<i64, String>, id: i64, name: String)
    ensures
        tag_name_cap(*final(c)) == tag_name_cap(*old(c)),
        tag_name_cap(*old(c)) > 0 ==> tag_names(*final(c)).contains_key(id),
        tag_name_cap(*old(c)) > 0 ==> tag_names(*final(c))[id] == name@,
        tag_name_cap(*old(c)) == 0 ==> tag_names(*final(c)) == tag_names(*old(c)),
        forall|k: i64| #[trigger] tag_names(*final(c)).contains_key(k) && k != id
            ==> tag_names(*old(c)).contains_key(k) && tag_names(*final(c))[k] == tag_names(*old(c))[k],
        tag_name_cap(*old(c)) > 0 && tag_names(*old(c)).contains_key(id) ==> tag_names(*final(c))
            == tag_names(*old(c)).insert(id, name@),
        tag_name_cap(*old(c)) > 0 && tag_names(*old(c)).dom().finite() && tag_names(*old(c)).len()
            <= tag_name_cap(*old(c)) ==> tag_names(*final(c)).dom().finite() && tag_names(
            *final(c),
        ).len() <= tag_name_cap(*final(c)),
{
    c.put(id, name);
}

/// Relies on `LruCache::get`: the value held for the key, if any; only the
/// recency order changes.
#[verifier::external_body]
pub(crate) fn get_id_lru(c: &mut LruCache<String, i64>, name: &str) -> (r: Option<i64>)
    ensures
        tag_ids(*final(c)) == tag_ids(*old(c)),
        tag_id_cap(*final(c)) == tag_id_cap(*old(c)),
        r == (if tag_ids(*old(c)).contains_key(name@) {
            Some(tag_ids(*old(c))[name@])
        } else {
            None::<i64>
        }),
{
    c.get(name).copied()
}

/// Relies on `LruCache::get`, as for the name-to-id cache.
#[verifier::external_body]
fn get_name_lru(c: &mut LruCache<i64, String>, id: i64) -> (r: Option<String>)
    ensures
        tag_names(*final(c)) == tag_names(*old(c)),
        tag_name_cap(*final(c)) == tag_name_cap(*old(c)),
        r.is_some() == tag_names(*old(c)).contains_key(id),
        r.is_some() ==> r.unwrap()@ == tag_names(*old(c))[id],
{
    c.get(&id).cloned()
}

/// How many entries each direction of the hashtag cache holds.
pub const TAG_CACHE_CAPACITY: usize = 1000;

/// Hashtag names and their numeric ids, cached in both directions.
pub struct Cache {
    pub hashtag_to_id: LruCache<String, i64>,
    pub id_to_hashtag: LruCache<i64, String>,
}

impl Cache {
    pub open spec fn ids(&self) -> Map<Seq<char>, i64> {
        tag_ids(self.hashtag_to_id)
    }

    pub open spec fn names(&self) -> Map<i64, Seq<char>> {
        tag_names(self.id_to_hashtag)
    }

    /// Each direction was made with the set capacity and holds at most that
    /// many entries.
    pub open spec fn wf(&self) -> bool {
        &&& tag_id_cap(self.hashtag_to_id) == TAG_CACHE_CAPACITY
        &&& tag_name_cap(self.id_to_hashtag) == TAG_CACHE_CAPACITY
        &&& self.ids().dom().finite()
        &&& self.ids().len() <= TAG_CACHE_CAPACITY
        &&& self.names().dom().finite()
        &&& self.names().len() <= TAG_CACHE_CAPACITY
    }

    pub fn new() -> (r: Cache)
        ensures
            r.wf(),
            tag_id_cap(r.hashtag_to_id) == TAG_CACHE_CAPACITY,
            tag_name_cap(r.id_to_hashtag) == TAG_CACHE_CAPACITY,
            r.ids() == no_ids(),
            r.names() == no_names(),
    {
        let r = Cache {
            hashtag_to_id: new_id_lru(TAG_CACHE_CAPACITY),
            id_to_hashtag: new_name_lru(TAG_CACHE_CAPACITY),
        };
        proof {
            assert(no_ids().dom() =~= Set::<Seq<char>>::empty());
            assert(no_names().dom() =~= Set::<i64>::empty());
        }
        r
    }

    /// Records that the hashtag `name` has the id `id`, in both directions.
    pub fn put(&mut self, name: String, id: i64)
        requires
            old(self).wf(),
        ensures
            final(self).wf(),
            final(self).ids().contains_key(name@),
            final(self).ids()[name@] == id,
            final(self).names().contains_key(id),
            final(self).names()[id] == name@,
    {
        let copy = name.clone();
        put_name_lru(&mut self.id_to_hashtag, id, copy);
        put_id_lru(&mut self.hashtag_to_id, name, id);
    }

    /// The id cached for a hashtag name.
    pub fn id_of(&mut self, name: &str) -> (r: Option<i64>)
        requires
            old(self).wf(),
        ensures
            final(self).wf(),
            final(self).ids() == old(self).ids(),
            final(self).names() == old(self).names(),
            r == (if old(self).ids().contains_key(name@) {
                Some(old(self).ids()[name@])
            } else {
                None::<i64>
            }),
    {
        get_id_lru(&mut self.hashtag_to_id, name)
    }

    /// The name cached for a hashtag id.
    pub fn name_of(&mut self, id: i64) -> (r: Option<String>)
        requires
            old(self).wf(),
        ensures
            final(self).wf(),
            final(self).ids() == old(self).ids(),
            final(self).names() == old(self).names(),
            r.is_some() == old(self).names().contains_key(id),
            r.is_some() ==> r.unwrap()@ == old(self).names()[id],
    {
        get_name_lru(&mut self.id_to_hashtag, id)
    }
}

} // verus!
