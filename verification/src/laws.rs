use crate::insertion::lemma_insert;
use crate::model::{increasing, top, Outcome, Shape};
use crate::store::planted;
use crate::util::Ptr;
use vstd::prelude::*;
use vstd::relations::{sorted_by, total_ordering};
use vstd::seq_lib::lemma_sorted_unique;

verus! {

/// In a neat tree the keys of every node are in strictly increasing order.
pub proof fn lemma_every_node_sorted(s: Shape, k: nat)
    requires
        s.neat(k),
    ensures
        s.every(|n: Shape| increasing(n.keys)),
    decreases s,
{
    assert forall|i: int| 0 <= i < s.kids.len() implies (#[trigger] s.kids[i]).every(
        |n: Shape| increasing(n.keys),
    ) by {
        lemma_every_node_sorted(s.kids[i], k);
    }
}

/// In a neat tree every node that has children has one more child than keys.
pub proof fn lemma_every_node_fanout(s: Shape, k: nat)
    requires
        s.neat(k),
    ensures
        s.every(|n: Shape| n.kids.len() == 0 || n.kids.len() == n.keys.len() + 1),
    decreases s,
{
    assert forall|i: int| 0 <= i < s.kids.len() implies (#[trigger] s.kids[i]).every(
        |n: Shape| n.kids.len() == 0 || n.kids.len() == n.keys.len() + 1,
    ) by {
        lemma_every_node_fanout(s.kids[i], k);
    }
}

/// In a valid tree of order `k` every node holds fewer than `k` keys.
pub proof fn lemma_every_node_under_capacity(s: Shape, k: nat)
    requires
        s.neat(k),
        s.keys.len() < k,
    ensures
        s.every(|n: Shape| n.keys.len() < k),
    decreases s,
{
    assert forall|i: int| 0 <= i < s.kids.len() implies (#[trigger] s.kids[i]).every(
        |n: Shape| n.keys.len() < k,
    ) by {
        lemma_every_node_under_capacity(s.kids[i], k);
    }
}

/// In a balanced tree all leaves lie at one depth: the height of the tree.
pub proof fn lemma_leaves_level(s: Shape)
    requires
        s.balanced(),
    ensures
        s.leaves_at(s.height()),
    decreases s,
{
    assert forall|i: int| 0 <= i < s.kids.len() implies (#[trigger] s.kids[i]).leaves_at(
        (s.height() - 1) as nat,
    ) by {
        lemma_leaves_level(s.kids[i]);
    }
}

/// A tree grows at the root only: an insertion leaves a valid tree, and it
/// adds a level exactly when the split reaches the root, and then it adds
/// one; otherwise the height stays.
pub proof fn lemma_height_grows_at_root(s: Shape, k: nat, key: u64, val: Ptr)
    requires
        k >= 2,
        s.wf(k),
    ensures
        planted(s, k, key, val).height() == if s.insert(k, key, val) is Splits {
            s.height() + 1
        } else {
            s.height()
        },
        planted(s, k, key, val).wf(k),
{
    lemma_insert(s, k, -1, top(), key, val);
}

/// The map that comes of inserting `entries` one after the other into `start`.
pub open spec fn inserted<T>(start: Map<u64, T>, entries: Seq<(u64, T)>) -> Map<u64, T>
    decreases entries.len(),
{
    if entries.len() == 0 {
        start
    } else {
        inserted(start, entries.drop_last()).insert(entries.last().0, entries.last().1)
    }
}

/// The keys of `entries`, in the order of the entries.
pub open spec fn keys_of<T>(entries: Seq<(u64, T)>) -> Seq<u64> {
    Seq::new(entries.len(), |i: int| entries[i].0)
}

/// The order of the keys.
pub open spec fn at_most() -> spec_fn(u64, u64) -> bool {
    |a: u64, b: u64| a <= b
}

/// What was inserted is there, and nothing else: after a run of insertions
/// into an empty map, a key is there if and only if some entry had it.
pub proof fn lemma_inserted_keys<T>(entries: Seq<(u64, T)>, key: u64)
    ensures
        inserted(Map::empty(), entries).contains_key(key) <==> keys_of(entries).contains(key),
    decreases entries.len(),
{
    if entries.len() > 0 {
        let before = entries.drop_last();
        let n = entries.len() - 1;
        lemma_inserted_keys(before, key);
        if keys_of(entries).contains(key) {
            let i = choose|i: int| 0 <= i < entries.len() && keys_of(entries)[i] == key;
            if i < n {
                assert(keys_of(before)[i] == key);
            }
        }
        if inserted(Map::empty(), entries).contains_key(key) {
            if entries.last().0 == key {
                assert(keys_of(entries)[n] == key);
            } else {
                let i = choose|i: int| 0 <= i < before.len() && keys_of(before)[i] == key;
                assert(keys_of(entries)[i] == key);
            }
        }
    }
}

/// A lookup gives the value inserted last: after a run of insertions into an
/// empty map, the value of a key is that of the last entry that had the key.
pub proof fn lemma_lookup_latest<T>(entries: Seq<(u64, T)>, key: u64, i: int)
    requires
        0 <= i < entries.len(),
        entries[i].0 == key,
        forall|j: int| i < j < entries.len() ==> entries[j].0 != key,
    ensures
        inserted(Map::empty(), entries).contains_key(key),
        inserted(Map::empty(), entries)[key] == entries[i].1,
    decreases entries.len(),
{
    let before = entries.drop_last();
    if i < entries.len() - 1 {
        assert(before[i] == entries[i]);
        assert forall|j: int| i < j < before.len() implies before[j].0 != key by {
            assert(before[j] == entries[j]);
        }
        lemma_lookup_latest(before, key, i);
    }
}

/// Insertion and listing go round: where distinct keys were inserted into an
/// empty tree in any order, an increasing listing of exactly the keys that
/// are there is the inserted keys, sorted.
pub proof fn lemma_round_trip<T>(entries: Seq<(u64, T)>, listing: Seq<u64>)
    requires
        keys_of(entries).no_duplicates(),
        increasing(listing),
        forall|key: u64|
            listing.contains(key) <==> #[trigger] inserted(Map::empty(), entries).contains_key(
                key,
            ),
    ensures
        listing == keys_of(entries).sort_by(at_most()),
{
    let keys = keys_of(entries);
    let leq = at_most();
    assert(total_ordering(leq)) by {
        assert forall|a: u64, b: u64| #[trigger] leq(a, b) && #[trigger] leq(b, a) implies a
            == b by {}
    }
    keys.lemma_sort_by_ensures(leq);
    assert(sorted_by(listing, leq));
    assert(listing.no_duplicates());
    assert(listing.to_multiset() =~= keys.to_multiset()) by {
        listing.to_multiset_ensures();
        keys.to_multiset_ensures();
        listing.lemma_multiset_has_no_duplicates();
        keys.lemma_multiset_has_no_duplicates();
        assert forall|key: u64|
            listing.to_multiset().count(key) == keys.to_multiset().count(key) by {
            lemma_inserted_keys(entries, key);
        }
    }
    lemma_sorted_unique(listing, keys.sort_by(leq), leq);
}

} // verus!
