//! The dictionary trie.
//!
//! Nodes live in one vector and name their children by position in it. The
//! first node is the root. Beside the nodes the trie keeps, as ghost state,
//! the key path that leads to each of them.

use crate::keys::{branch_keys, is_plain, lemma_branch_keys_injective, word_keys};
use crate::model::{lemma_prefixes_step, prefixes, TrieView};
use crate::pos::PosTag;
use std::collections::HashMap;
use vstd::prelude::*;
use vstd::seq_lib::seq_to_set_is_finite;
use vstd::std_specs::hash::*;

verus! {

broadcast use vstd::std_specs::hash::group_hash_axioms;

/// One node of the trie.
#[derive(Debug)]
pub struct TrieNode {
    is_end: bool,
    children: HashMap<u32, usize>,
    tag: Option<PosTag>,
}

/// What a node holds.
pub struct NodeView {
    /// Whether an entry ends at the node.
    pub is_end: bool,
    /// The position of the child under each key, by the key's code point.
    pub children: Map<u32, usize>,
    /// The tag of the entry that ends at the node.
    pub tag: Option<PosTag>,
}

impl View for TrieNode {
    type V = NodeView;

    closed spec fn view(&self) -> NodeView {
        NodeView {
            is_end: self.is_end,
            children: self.children@,
            tag: self.tag,
        }
    }
}

impl TrieNode {
    /// A node without children.
    pub fn new(is_end: bool, tag: Option<PosTag>) -> (node: Self)
        ensures
            node@ == (NodeView { is_end, children: Map::empty(), tag }),
    {
        TrieNode { is_end: is_end, children: HashMap::new(), tag: tag }
    }

    /// A node without children at which no entry ends.
    pub fn default() -> (node: Self)
        ensures
            node@ == (NodeView { is_end: false, children: Map::empty(), tag: None }),
    {
        TrieNode { is_end: false, children: HashMap::new(), tag: None }
    }
}

/// Whether `child` hangs below `parent` under the last key of its path.
spec fn linked(nodes: Seq<TrieNode>, paths: Seq<Seq<char>>, parent: int, child: int) -> bool {
    let path = paths[child];
    &&& path.len() > 0
    &&& path.drop_last() == paths[parent]
    &&& nodes[parent].children@.contains_key(path.last() as u32)
    &&& nodes[parent].children@[path.last() as u32] == child
}

/// Whether some node has `child` as its child.
spec fn has_parent(nodes: Seq<TrieNode>, paths: Seq<Seq<char>>, child: int) -> bool {
    exists|parent: int| 0 <= parent < nodes.len() && #[trigger] linked(nodes, paths, parent, child)
}

/// Whether the link of `nodes[parent]` under the code point `code` leads to
/// a node whose path is that of the parent with the key added.
spec fn link_ok(nodes: Seq<TrieNode>, paths: Seq<Seq<char>>, parent: int, code: u32) -> bool {
    let child = nodes[parent].children@[code] as int;
    &&& 0 < child < nodes.len()
    &&& paths[child].len() > 0
    &&& paths[child].drop_last() == paths[parent]
    &&& paths[child].last() as u32 == code
}

/// Whether the nodes form a tree below `nodes[0]` in which `paths[i]` is the
/// path to `nodes[i]`, and only nodes at which an entry ends carry a tag.
spec fn arena_ok(nodes: Seq<TrieNode>, paths: Seq<Seq<char>>) -> bool {
    &&& nodes.len() == paths.len()
    &&& nodes.len() >= 1
    &&& paths[0].len() == 0
    &&& paths.no_duplicates()
    &&& forall|parent: int, code: u32|
        0 <= parent < nodes.len() && #[trigger] nodes[parent].children@.contains_key(code)
            ==> link_ok(nodes, paths, parent, code)
    &&& forall|child: int| 0 < child < nodes.len() ==> #[trigger] has_parent(nodes, paths, child)
    &&& forall|i: int| 0 <= i < nodes.len() && (#[trigger] nodes[i]).tag is Some ==> nodes[i].is_end
}

/// The entries of the trie: the paths of the nodes at which one ends, with
/// the tags of those nodes.
spec fn arena_entries(nodes: Seq<TrieNode>, paths: Seq<Seq<char>>) -> Map<
    Seq<char>,
    Option<PosTag>,
> {
    Map::new(
        |path: Seq<char>| paths.contains(path) && nodes[paths.index_of(path)].is_end,
        |path: Seq<char>| nodes[paths.index_of(path)].tag,
    )
}

/// Two characters with the same code point are the same character.
proof fn lemma_code_point_injective(a: char, b: char)
    requires
        a as u32 == b as u32,
    ensures
        a == b,
{
}

/// Each path is found at its own position and nowhere else.
proof fn lemma_index_of(paths: Seq<Seq<char>>, i: int)
    requires
        paths.no_duplicates(),
        0 <= i < paths.len(),
    ensures
        paths.contains(paths[i]),
        paths.index_of(paths[i]) == i,
{
}

/// Where a node has no child under `key`, no node has its path with `key`
/// added.
proof fn lemma_no_link_no_node(nodes: Seq<TrieNode>, paths: Seq<Seq<char>>, cur: int, key: char)
    requires
        arena_ok(nodes, paths),
        0 <= cur < nodes.len(),
        !nodes[cur].children@.contains_key(key as u32),
    ensures
        !paths.contains(paths[cur].push(key)),
{
    let target = paths[cur].push(key);
    if paths.contains(target) {
        // Such a node would hang below a node with the path of `cur`, which
        // is `cur` itself, under `key`.
        let j = choose|j: int| 0 <= j < paths.len() && paths[j] == target;
        assert(has_parent(nodes, paths, j));
        let parent = choose|parent: int|
            0 <= parent < nodes.len() && #[trigger] linked(nodes, paths, parent, j);
        assert(target.drop_last() =~= paths[cur]);
        assert(parent == cur);
    }
}

/// Where a node has a child under `key`, that child's path is the node's
/// path with `key` added.
proof fn lemma_link_path(nodes: Seq<TrieNode>, paths: Seq<Seq<char>>, cur: int, key: char)
    requires
        arena_ok(nodes, paths),
        0 <= cur < nodes.len(),
        nodes[cur].children@.contains_key(key as u32),
    ensures
        0 < nodes[cur].children@[key as u32] < nodes.len(),
        paths[nodes[cur].children@[key as u32] as int] == paths[cur].push(key),
{
    let child = nodes[cur].children@[key as u32] as int;
    assert(link_ok(nodes, paths, cur, key as u32));
    lemma_code_point_injective(paths[child].last(), key);
    assert(paths[child] =~= paths[child].drop_last().push(paths[child].last()));
}

/// Every prefix of a node's path is the path of a node.
proof fn lemma_ancestors(
    nodes: Seq<TrieNode>,
    paths: Seq<Seq<char>>,
    path: Seq<char>,
    prefix: Seq<char>,
)
    requires
        arena_ok(nodes, paths),
        paths.contains(path),
        prefix.is_prefix_of(path),
    ensures
        paths.contains(prefix),
    decreases path.len(),
{
    if prefix.len() == path.len() {
        assert(prefix =~= path);
    } else {
        // A shorter prefix is a prefix of the parent's path.
        let j = choose|j: int| 0 <= j < paths.len() && paths[j] == path;
        assert(has_parent(nodes, paths, j));
        let parent = choose|parent: int|
            0 <= parent < nodes.len() && #[trigger] linked(nodes, paths, parent, j);
        assert(prefix.is_prefix_of(paths[parent]));
        lemma_ancestors(nodes, paths, paths[parent], prefix);
    }
}

/// Whether `after` is `before` with a fresh last node linked below
/// `before[cur]` under `key`.
spec fn grown(before: Seq<TrieNode>, after: Seq<TrieNode>, cur: int, key: char) -> bool {
    let fresh = before.len() as int;
    &&& after.len() == before.len() + 1
    &&& forall|i: int| 0 <= i < before.len() && i != cur ==> #[trigger] after[i] == before[i]
    &&& after[cur].is_end == before[cur].is_end
    &&& after[cur].tag == before[cur].tag
    &&& after[cur].children@ == before[cur].children@.insert(key as u32, fresh as usize)
    &&& !after[fresh].is_end
    &&& after[fresh].tag is None
    &&& after[fresh].children@ == Map::<u32, usize>::empty()
}

/// Linking a fresh node below a node that had no child under `key` keeps the
/// tree a tree, adds the one path and leaves the entries as they were.
proof fn lemma_grown(
    before: Seq<TrieNode>,
    paths: Seq<Seq<char>>,
    after: Seq<TrieNode>,
    cur: int,
    key: char,
)
    requires
        arena_ok(before, paths),
        0 <= cur < before.len(),
        before.len() < usize::MAX,
        !before[cur].children@.contains_key(key as u32),
        grown(before, after, cur, key),
    ensures
        arena_ok(after, paths.push(paths[cur].push(key))),
        paths.push(paths[cur].push(key)).to_set() == paths.to_set().insert(paths[cur].push(key)),
        arena_entries(after, paths.push(paths[cur].push(key))) == arena_entries(before, paths),
{
    let fresh = before.len() as int;
    let path = paths[cur].push(key);
    let longer = paths.push(path);
    // The new path is the path of no old node.
    lemma_no_link_no_node(before, paths, cur, key);
    assert(path.drop_last() =~= paths[cur]);
    assert(longer.no_duplicates());
    // Old links lead where they led; the new one leads to the fresh node.
    assert forall|parent: int, code: u32|
        0 <= parent < after.len() && #[trigger] after[parent].children@.contains_key(
            code,
        ) implies link_ok(after, longer, parent, code) by {
        if parent != cur || code != key as u32 {
            assert(link_ok(before, paths, parent, code));
        }
    }
    // Old nodes keep their parents; the fresh node hangs below `cur`.
    assert forall|child: int| 0 < child < after.len() implies #[trigger] has_parent(
        after,
        longer,
        child,
    ) by {
        if child == fresh {
            assert(linked(after, longer, cur, child));
        } else {
            assert(has_parent(before, paths, child));
            let parent = choose|parent: int|
                0 <= parent < before.len() && #[trigger] linked(before, paths, parent, child);
            assert(linked(after, longer, parent, child));
        }
    }
    assert(longer.to_set() =~= paths.to_set().insert(path)) by {
        assert forall|p: Seq<char>| paths.to_set().insert(path).contains(p) implies longer.contains(
            p,
        ) by {
            if p == path {
                assert(longer[fresh] == p);
            } else {
                assert(longer[paths.index_of(p)] == p);
            }
        }
    }
    // Each old path is found where it was, at a node that ends an entry
    // exactly if it did; the new path is found at the fresh node, which ends
    // none.
    assert(arena_entries(after, longer) =~= arena_entries(before, paths)) by {
        assert forall|p: Seq<char>| paths.contains(p) implies longer.contains(p)
            && longer.index_of(p) == paths.index_of(p) by {
            assert(longer[paths.index_of(p)] == p);
        }
        assert forall|p: Seq<char>| longer.contains(p) && !paths.contains(p) implies
            longer.index_of(p) == fresh by {
            if longer.index_of(p) != fresh {
                assert(paths[longer.index_of(p)] == p);
            }
        }
    }
}

/// Whether `after` is `before` with an entry ending at `before[cur]`, tagged
/// with `tag` if that is a tag and as before if not.
spec fn marked(before: Seq<TrieNode>, after: Seq<TrieNode>, cur: int, tag: Option<PosTag>) -> bool {
    &&& after.len() == before.len()
    &&& forall|i: int| 0 <= i < before.len() && i != cur ==> #[trigger] after[i] == before[i]
    &&& after[cur].is_end
    &&& after[cur].tag == (if tag is Some {
        tag
    } else {
        before[cur].tag
    })
    &&& after[cur].children@ == before[cur].children@
}

/// Marking a node as the end of an entry keeps the tree a tree and adds the
/// one entry.
proof fn lemma_marked(
    before: Seq<TrieNode>,
    paths: Seq<Seq<char>>,
    after: Seq<TrieNode>,
    cur: int,
    tag: Option<PosTag>,
)
    requires
        arena_ok(before, paths),
        0 <= cur < before.len(),
        marked(before, after, cur, tag),
    ensures
        arena_ok(after, paths),
        arena_entries(after, paths) == arena_entries(before, paths).insert(
            paths[cur],
            if tag is Some {
                tag
            } else if arena_entries(before, paths).contains_key(paths[cur]) {
                arena_entries(before, paths)[paths[cur]]
            } else {
                None
            },
        ),
{
    // No link has changed.
    assert forall|parent: int, code: u32|
        0 <= parent < after.len() && #[trigger] after[parent].children@.contains_key(
            code,
        ) implies link_ok(after, paths, parent, code) by {
        assert(link_ok(before, paths, parent, code));
    }
    assert forall|child: int| 0 < child < after.len() implies #[trigger] has_parent(
        after,
        paths,
        child,
    ) by {
        assert(has_parent(before, paths, child));
        let parent = choose|parent: int|
            0 <= parent < before.len() && #[trigger] linked(before, paths, parent, child);
        assert(linked(after, paths, parent, child));
    }
    // The path of `cur` is found at `cur`, every other path at another node.
    lemma_index_of(paths, cur);
    let old_entries = arena_entries(before, paths);
    let new_tag = if tag is Some {
        tag
    } else if old_entries.contains_key(paths[cur]) {
        old_entries[paths[cur]]
    } else {
        None
    };
    assert(after[cur].tag == new_tag);
    assert(arena_entries(after, paths) =~= old_entries.insert(paths[cur], new_tag));
}

/// The dictionary trie: entries are found by the branching keys of their
/// text.
pub struct Trie {
    /// The nodes; the first is the root.
    nodes: Vec<TrieNode>,
    /// The number of nodes that insertions have created.
    total: usize,
    /// For each node the keys that lead to it from the root.
    paths: Ghost<Seq<Seq<char>>>,
}

impl View for Trie {
    type V = TrieView;

    closed spec fn view(&self) -> TrieView {
        TrieView {
            nodes: self.paths@.to_set(),
            entries: arena_entries(self.nodes@, self.paths@),
        }
    }
}

impl Default for Trie {
    /// A trie that holds no entry.
    fn default() -> (trie: Self)
        ensures
            trie.wf(),
            trie@ == TrieView::empty(),
    {
        Trie::new()
    }
}

impl Trie {
    /// Whether the nodes form a tree below the root, each found by its own
    /// path, and the count is that of the nodes besides the root.
    pub closed spec fn wf(&self) -> bool {
        &&& arena_ok(self.nodes@, self.paths@)
        &&& self.total + 1 == self.nodes.len()
    }

    /// The abstract state of a well-formed trie is well formed.
    pub proof fn lemma_view_wf(&self)
        requires
            self.wf(),
        ensures
            self@.wf(),
    {
        seq_to_set_is_finite(self.paths@);
        assert(self.paths@[0] =~= Seq::<char>::empty());
        assert forall|p: Seq<char>, q: Seq<char>|
            #![trigger self@.nodes.contains(p), q.is_prefix_of(p)]
            self@.nodes.contains(p) && q.is_prefix_of(p) implies self@.nodes.contains(q) by {
            lemma_ancestors(self.nodes@, self.paths@, p, q);
        }
    }

    /// A trie that holds no entry.
    pub fn new() -> (trie: Self)
        ensures
            trie.wf(),
            trie@ == TrieView::empty(),
    {
        let mut nodes: Vec<TrieNode> = Vec::new();
        nodes.push(TrieNode::default());
        let ghost paths = seq![Seq::<char>::empty()];
        let trie = Trie { nodes: nodes, total: 0, paths: Ghost(paths) };
        proof {
            assert(paths[0] == Seq::<char>::empty());
            assert(paths.to_set() =~= set![Seq::<char>::empty()]);
            assert(arena_entries(trie.nodes@, paths) =~= Map::empty());
        }
        trie
    }

    /// The number of nodes that insertions have created.
    pub fn total(&self) -> (n: usize)
        requires
            self.wf(),
        ensures
            n == self@.node_count(),
    {
        proof {
            self.paths@.unique_seq_to_set();
        }
        self.total
    }

    /// Inserts an entry with the text `word`.
    ///
    /// Walks the branching keys of `word` from the root and creates a node
    /// wherever one is missing. Lets the entry end at the node reached, and
    /// stores `tag` there if it is a tag; a tag stored earlier stays where
    /// `tag` is `None`.
    pub fn insert(&mut self, word: &str, tag: Option<PosTag>)
        requires
            old(self).wf(),
        ensures
            final(self).wf(),
            final(self)@ == old(self)@.insert(branch_keys(word@), tag),
    {
        let keys = word_keys(word);
        let mut cur: usize = 0;
        let mut i: usize = 0;
        proof {
            // The one prefix of no keys is the path of the root.
            assert forall|p: Seq<char>| p.is_prefix_of(keys@.take(0)) implies self@.nodes.contains(
                p,
            ) by {
                assert(p =~= self.paths@[0]);
            }
            assert(self@.nodes =~= self@.nodes.union(prefixes(keys@.take(0))));
        }
        while i < keys.len()
            invariant
                i <= keys.len(),
                self.wf(),
                cur < self.nodes.len(),
                self.paths@[cur as int] == keys@.take(i as int),
                self@.nodes == old(self)@.nodes.union(prefixes(keys@.take(i as int))),
                self@.entries == old(self)@.entries,
            decreases keys.len() - i,
        {
            proof {
                assert(keys@.take(i as int).push(keys@[i as int]) =~= keys@.take(i + 1));
                assert(keys@.take(i + 1).drop_last() =~= keys@.take(i as int));
                lemma_prefixes_step(keys@.take(i + 1));
            }
            cur = self.step(cur, keys[i]);
            i += 1;
        }
        assert(keys@.take(keys@.len() as int) =~= keys@);
        self.mark(cur, tag);
    }

    /// Whether an entry with the text `word` was inserted.
    pub fn contains(&self, word: &str) -> (found: bool)
        requires
            self.wf(),
        ensures
            found == self@.contains(branch_keys(word@)),
    {
        let keys = word_keys(word);
        match self.find(&keys) {
            Some(i) => {
                proof {
                    lemma_index_of(self.paths@, i as int);
                }
                self.nodes[i].is_end
            },
            None => false,
        }
    }

    /// Whether the keys of `prefix` lead to a node: whether some inserted
    /// text has keys that begin with them.
    pub fn starts_with(&self, prefix: &str) -> (found: bool)
        requires
            self.wf(),
        ensures
            found == self@.starts_with(branch_keys(prefix@)),
    {
        let keys = word_keys(prefix);
        match self.find(&keys) {
            Some(i) => {
                assert(self.paths@[i as int] == keys@);
                true
            },
            None => false,
        }
    }

    /// The child of `nodes[cur]` under `key`, if there is one.
    fn child(&self, cur: usize, key: char) -> (next: Option<usize>)
        requires
            self.wf(),
            cur < self.nodes.len(),
        ensures
            match next {
                Some(c) => {
                    &&& self.nodes[cur as int].children@.contains_key(key as u32)
                    &&& c < self.nodes.len()
                    &&& self.paths@[c as int] == self.paths@[cur as int].push(key)
                },
                None => {
                    &&& !self.nodes[cur as int].children@.contains_key(key as u32)
                    &&& !self.paths@.contains(self.paths@[cur as int].push(key))
                },
            },
    {
        let code: u32 = key as u32;
        match self.nodes[cur].children.get(&code) {
            Some(c) => {
                proof {
                    lemma_link_path(self.nodes@, self.paths@, cur as int, key);
                }
                Some(*c)
            },
            None => {
                proof {
                    lemma_no_link_no_node(self.nodes@, self.paths@, cur as int, key);
                }
                None
            },
        }
    }

    /// The node to which `keys` leads from the root, if there is one.
    fn find(&self, keys: &Vec<char>) -> (found: Option<usize>)
        requires
            self.wf(),
        ensures
            match found {
                Some(i) => i < self.nodes.len() && self.paths@[i as int] == keys@,
                None => !self.paths@.contains(keys@),
            },
    {
        let mut cur: usize = 0;
        let mut i: usize = 0;
        assert(self.paths@[0] =~= keys@.take(0));
        while i < keys.len()
            invariant
                self.wf(),
                i <= keys.len(),
                cur < self.nodes.len(),
                self.paths@[cur as int] == keys@.take(i as int),
            decreases keys.len() - i,
        {
            assert(keys@.take(i as int).push(keys@[i as int]) =~= keys@.take(i + 1));
            match self.child(cur, keys[i]) {
                Some(next) => {
                    cur = next;
                },
                None => {
                    proof {
                        // A node at the end of the keys would have an
                        // ancestor at the keys up to this one.
                        if self.paths@.contains(keys@) {
                            assert(keys@.take(i + 1).is_prefix_of(keys@));
                            lemma_ancestors(self.nodes@, self.paths@, keys@, keys@.take(i + 1));
                        }
                    }
                    return None;
                },
            }
            i += 1;
        }
        assert(keys@.take(keys@.len() as int) =~= keys@);
        Some(cur)
    }

    /// One branching step of an insertion: moves from `nodes[cur]` to its
    /// child under `key`, which it creates and counts if there is none.
    fn step(&mut self, cur: usize, key: char) -> (next: usize)
        requires
            old(self).wf(),
            cur < old(self).nodes.len(),
        ensures
            final(self).wf(),
            next < final(self).nodes.len(),
            final(self).paths@[next as int] == old(self).paths@[cur as int].push(key),
            final(self)@.nodes == old(self)@.nodes.insert(old(self).paths@[cur as int].push(key)),
            final(self)@.entries == old(self)@.entries,
    {
        match self.child(cur, key) {
            Some(next) => {
                assert(self@.nodes.insert(self.paths@[next as int]) =~= self@.nodes);
                next
            },
            None => {
                let ghost before = self.nodes@;
                let fresh: usize = self.nodes.len();
                self.nodes.push(TrieNode::default());
                self.nodes[cur].children.insert(key as u32, fresh);
                self.total = self.total + 1;
                proof {
                    assert(self.nodes.len() == before.len() + 1);
                    assert(grown(before, self.nodes@, cur as int, key));
                    lemma_grown(before, self.paths@, self.nodes@, cur as int, key);
                    self.paths@ = self.paths@.push(self.paths@[cur as int].push(key));
                }
                fresh
            },
        }
    }

    /// Lets an entry end at `nodes[cur]`: marks the node and stores `tag`
    /// there if it is a tag.
    fn mark(&mut self, cur: usize, tag: Option<PosTag>)
        requires
            old(self).wf(),
            cur < old(self).nodes.len(),
        ensures
            final(self).wf(),
            final(self)@.nodes == old(self)@.nodes,
            final(self)@.entries == old(self)@.entries.insert(
                old(self).paths@[cur as int],
                old(self)@.tag_after(old(self).paths@[cur as int], tag),
            ),
    {
        let ghost before = self.nodes@;
        self.nodes[cur].is_end = true;
        if tag.is_some() {
            self.nodes[cur].tag = tag;
        }
        proof {
            assert(marked(before, self.nodes@, cur as int, tag));
            lemma_marked(before, self.paths@, self.nodes@, cur as int, tag);
        }
    }
}

/// After the insertion of a text without component characters, another such
/// text is found exactly if it is the inserted text or was found before.
pub proof fn lemma_found_by_same_text_only(
    v: TrieView,
    text: Seq<char>,
    tag: Option<PosTag>,
    query: Seq<char>,
)
    requires
        is_plain(text),
        is_plain(query),
    ensures
        v.insert(branch_keys(text), tag).contains(branch_keys(query)) <==> query == text
            || v.contains(branch_keys(query)),
{
    if branch_keys(query) == branch_keys(text) {
        lemma_branch_keys_injective(query, text);
    }
}

} // verus!
