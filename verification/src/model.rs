//! What a trie is, apart from how it is stored: the key paths that have a
//! node, and the entries that end at some of them.

use crate::pos::PosTag;
use vstd::prelude::*;

verus! {

/// The prefixes of `keys`, the empty one and `keys` itself included.
pub open spec fn prefixes(keys: Seq<char>) -> Set<Seq<char>> {
    Set::new(|p: Seq<char>| p.is_prefix_of(keys))
}

/// The abstract state of a trie.
pub struct TrieView {
    /// The key paths that lead from the root to a node. The empty path is the
    /// root itself.
    pub nodes: Set<Seq<char>>,
    /// The paths at which an entry ends, each with the tag stored there.
    pub entries: Map<Seq<char>, Option<PosTag>>,
}

impl TrieView {
    /// The trie that holds the root and nothing else.
    pub open spec fn empty() -> TrieView {
        TrieView { nodes: set![Seq::<char>::empty()], entries: Map::empty() }
    }

    /// What every trie satisfies: finitely many nodes, the root among them,
    /// each node's ancestors too, and entries at nodes only.
    pub open spec fn wf(self) -> bool {
        &&& self.nodes.finite()
        &&& self.nodes.contains(Seq::<char>::empty())
        &&& forall|p: Seq<char>, q: Seq<char>|
            #![trigger self.nodes.contains(p), q.is_prefix_of(p)]
            self.nodes.contains(p) && q.is_prefix_of(p) ==> self.nodes.contains(q)
        &&& forall|p: Seq<char>| #[trigger] self.entries.contains_key(p) ==> self.nodes.contains(p)
    }

    /// The number of nodes besides the root.
    pub open spec fn node_count(self) -> nat {
        (self.nodes.len() - 1) as nat
    }

    /// Whether an entry ends at `keys`.
    pub open spec fn contains(self, keys: Seq<char>) -> bool {
        self.entries.contains_key(keys)
    }

    /// Whether `keys` leads to a node.
    pub open spec fn starts_with(self, keys: Seq<char>) -> bool {
        self.nodes.contains(keys)
    }

    /// The tag at `keys` once an entry with `tag` was inserted there: a given
    /// tag replaces what was stored, a missing one leaves it.
    pub open spec fn tag_after(self, keys: Seq<char>, tag: Option<PosTag>) -> Option<PosTag> {
        match tag {
            Some(t) => Some(t),
            None => if self.entries.contains_key(keys) {
                self.entries[keys]
            } else {
                None
            },
        }
    }

    /// The trie after the insertion of an entry with the given keys and tag.
    pub open spec fn insert(self, keys: Seq<char>, tag: Option<PosTag>) -> TrieView {
        TrieView {
            nodes: self.nodes.union(prefixes(keys)),
            entries: self.entries.insert(keys, self.tag_after(keys, tag)),
        }
    }

    /// The trie after the insertion of each entry of `batch`, in order.
    pub open spec fn insert_all(self, batch: Seq<(Seq<char>, Option<PosTag>)>) -> TrieView
        decreases batch.len(),
    {
        if batch.len() == 0 {
            self
        } else {
            self.insert_all(batch.drop_last()).insert(batch.last().0, batch.last().1)
        }
    }

    /// The length of the longest prefix of `keys` that leads to a node.
    pub open spec fn shared_len(self, keys: Seq<char>) -> nat
        decreases keys.len(),
    {
        if self.nodes.contains(keys) {
            keys.len()
        } else if keys.len() == 0 {
            0
        } else {
            self.shared_len(keys.drop_last())
        }
    }
}

/// A sequence of keys has one prefix of each length up to its own.
pub proof fn lemma_prefixes_len(keys: Seq<char>)
    ensures
        prefixes(keys).finite(),
        prefixes(keys).len() == keys.len() + 1,
    decreases keys.len(),
{
    if keys.len() == 0 {
        assert forall|p: Seq<char>| p.is_prefix_of(keys) implies p == Seq::<char>::empty() by {
            assert(p =~= Seq::<char>::empty());
        }
        assert(prefixes(keys) =~= set![Seq::<char>::empty()]);
    } else {
        lemma_prefixes_step(keys);
        lemma_prefixes_len(keys.drop_last());
    }
}

/// The prefixes of a non-empty sequence are the sequence itself and the
/// prefixes of what precedes its last key.
pub proof fn lemma_prefixes_step(keys: Seq<char>)
    requires
        keys.len() > 0,
    ensures
        prefixes(keys) == prefixes(keys.drop_last()).insert(keys),
        !prefixes(keys.drop_last()).contains(keys),
{
    let shorter = keys.drop_last();
    assert forall|p: Seq<char>| p.is_prefix_of(keys) <==> p.is_prefix_of(shorter) || p == keys by {
        if p.is_prefix_of(keys) && p.len() == keys.len() {
            assert(p =~= keys);
        }
    }
    assert(prefixes(keys) =~= prefixes(shorter).insert(keys));
}

/// The empty trie is well formed, has no node besides the root and holds no
/// entry.
pub proof fn lemma_empty_wf()
    ensures
        TrieView::empty().wf(),
        TrieView::empty().node_count() == 0,
        forall|keys: Seq<char>| !TrieView::empty().contains(keys),
{
    assert forall|q: Seq<char>| q.is_prefix_of(Seq::<char>::empty()) implies q
        == Seq::<char>::empty() by {
        assert(q =~= Seq::<char>::empty());
    }
}

/// Insertion keeps a trie well formed.
pub proof fn lemma_insert_wf(v: TrieView, keys: Seq<char>, tag: Option<PosTag>)
    requires
        v.wf(),
    ensures
        v.insert(keys, tag).wf(),
{
    lemma_prefixes_len(keys);
    assert(keys.is_prefix_of(keys));
}

/// After an insertion the entry is found with the tag that the insertion
/// leaves there, and every prefix of its keys leads to a node.
pub proof fn lemma_insert_found(v: TrieView, keys: Seq<char>, tag: Option<PosTag>)
    ensures
        v.insert(keys, tag).contains(keys),
        v.insert(keys, tag).entries[keys] == v.tag_after(keys, tag),
        v.insert(keys, tag).starts_with(keys),
        forall|p: Seq<char>| p.is_prefix_of(keys) ==> v.insert(keys, tag).starts_with(p),
{
    assert(keys.is_prefix_of(keys));
}

/// An insertion changes nothing at other keys: an entry elsewhere is found
/// after it exactly if it was found before, with the same tag, and a path
/// that is no prefix of the inserted keys leads to a node exactly if it did.
pub proof fn lemma_insert_elsewhere(
    v: TrieView,
    keys: Seq<char>,
    tag: Option<PosTag>,
    other: Seq<char>,
)
    ensures
        other != keys ==> v.insert(keys, tag).contains(other) == v.contains(other),
        other != keys ==> v.insert(keys, tag).entries[other] == v.entries[other],
        !other.is_prefix_of(keys) ==> v.insert(keys, tag).starts_with(other) == v.starts_with(
            other,
        ),
        v.contains(other) ==> v.insert(keys, tag).contains(other),
        v.starts_with(other) ==> v.insert(keys, tag).starts_with(other),
{
}

/// The longest shared prefix is all of `keys` exactly if `keys` leads to a
/// node.
pub proof fn lemma_shared_len_full(v: TrieView, keys: Seq<char>)
    requires
        v.wf(),
    ensures
        v.shared_len(keys) <= keys.len(),
        v.shared_len(keys) == keys.len() <==> v.starts_with(keys),
    decreases keys.len(),
{
    if keys.len() == 0 {
        assert(keys =~= Seq::<char>::empty());
    } else if !v.nodes.contains(keys) {
        lemma_shared_len_full(v, keys.drop_last());
    }
}

/// An insertion creates one node for each key beyond the longest prefix that
/// the trie already holds, and no other.
pub proof fn lemma_insert_node_count(v: TrieView, keys: Seq<char>, tag: Option<PosTag>)
    requires
        v.wf(),
    ensures
        v.shared_len(keys) <= keys.len(),
        v.insert(keys, tag).node_count() == v.node_count() + keys.len() - v.shared_len(keys),
    decreases keys.len(),
{
    let w = v.insert(keys, tag);
    lemma_shared_len_full(v, keys);
    if v.nodes.contains(keys) {
        // Every prefix of the keys has its node already.
        assert(w.nodes =~= v.nodes);
    } else {
        // All but the last key are inserted first; the last brings one node more.
        let shorter = keys.drop_last();
        let u = v.insert(shorter, tag);
        lemma_insert_node_count(v, shorter, tag);
        lemma_insert_wf(v, shorter, tag);
        lemma_prefixes_step(keys);
        assert(w.nodes =~= u.nodes.insert(keys));
    }
}

/// Inserting the same entry again changes nothing, and neither does
/// inserting it again without a tag.
pub proof fn lemma_insert_idempotent(v: TrieView, keys: Seq<char>, tag: Option<PosTag>)
    ensures
        v.insert(keys, tag).insert(keys, tag) == v.insert(keys, tag),
        v.insert(keys, tag).insert(keys, None) == v.insert(keys, tag),
        v.insert(keys, tag).node_count() == v.insert(keys, tag).insert(keys, tag).node_count(),
{
    let w = v.insert(keys, tag);
    assert(w.insert(keys, tag).nodes =~= w.nodes);
    assert(w.insert(keys, tag).entries =~= w.entries);
    assert(w.insert(keys, None).entries =~= w.entries);
}

/// Insertion never removes a node: the node count does not go down, and it
/// stays the same exactly if the keys already led to a node.
pub proof fn lemma_insert_grows(v: TrieView, keys: Seq<char>, tag: Option<PosTag>)
    requires
        v.wf(),
    ensures
        v.insert(keys, tag).node_count() >= v.node_count(),
        v.insert(keys, tag).node_count() == v.node_count() <==> v.starts_with(keys),
{
    lemma_insert_node_count(v, keys, tag);
    lemma_shared_len_full(v, keys);
}

/// A trie that was filled from empty is well formed, holds exactly the
/// entries whose keys were inserted, and has a node exactly at the root and
/// at the prefixes of those keys.
pub proof fn lemma_insert_all_contents(batch: Seq<(Seq<char>, Option<PosTag>)>, keys: Seq<char>)
    ensures
        TrieView::empty().insert_all(batch).wf(),
        TrieView::empty().insert_all(batch).contains(keys) <==> exists|i: int|
            0 <= i < batch.len() && (#[trigger] batch[i]).0 == keys,
        TrieView::empty().insert_all(batch).starts_with(keys) <==> keys.len() == 0 || exists|
            i: int,
        |
            0 <= i < batch.len() && keys.is_prefix_of((#[trigger] batch[i]).0),
    decreases batch.len(),
{
    if batch.len() == 0 {
        lemma_empty_wf();
        assert(keys.len() == 0 <==> keys =~= Seq::<char>::empty());
    } else {
        let before = batch.drop_last();
        let last = batch.last();
        lemma_insert_all_contents(before, keys);
        lemma_insert_wf(TrieView::empty().insert_all(before), last.0, last.1);
        // What held of an entry of `before` holds of the same entry of `batch`.
        assert(forall|i: int| 0 <= i < before.len() ==> before[i] == batch[i]);
        assert(batch[batch.len() - 1] == last);
    }
}

} // verus!
