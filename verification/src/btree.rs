//! The B+Tree engine: search, insert with split, and delete with merge over
//! an in-memory page store.
//!
//! The store maps each offset to one encoded page; every tree operation
//! re-reads and decodes the pages it visits, and writes back every node it
//! modifies. The invariant carried across operations is that every page in
//! the store decodes to a well-formed node (`NodeModel::wf`): internal nodes
//! have one more child than keys with strictly ascending keys, leaves hold
//! strictly ascending pairs. Structural damage that only a whole-tree walk
//! could rule out (a cycle, a dangling child offset, an unsorted separator
//! arriving from a corrupt sibling) is detected during traversal and
//! surfaced as `CorruptTree` or `IOError`, never repaired.

use vstd::prelude::*;

use crate::codec::{lemma_wf_encodes, lemma_wf_rt_clean, spec_decode, spec_encode_err};
use crate::error::Error;
use crate::node::{bytes_clean, child_index, clone_bytes, is_utf8, is_valid_utf8, key_less,
    key_lt, key_ok,
    keys_sorted, lemma_child_index_bounds, lemma_child_index_props, lemma_key_lt_trans,
    lemma_lookup_concat, lemma_sorted_concat_pairs, lemma_sorted_insert_keys,
    lemma_sorted_insert_pairs, lemma_sorted_remove_keys, lemma_sorted_subrange_keys,
    lemma_sorted_subrange_pairs, leaf_insert, leaf_lookup, leaf_remove, pairs_sorted, pairs_view,
    spec_child_index, spec_lookup, value_ok, zero_clean, Key, KeyValuePair, Node, NodeModel,
    NodeType, NodeTypeModel, Offset, MAX_INTERNAL_CHILDREN, MAX_LEAF_PAIRS, MIN_LEAF_PAIRS};
use crate::page::{Page, KEY_SIZE, VALUE_SIZE};

verus! {

/// One well-formed encoded page: the bytes decode to a well-formed node.
pub open spec fn page_bytes_wf(s: Seq<u8>) -> bool {
    &&& s.len() == crate::page::PAGE_SIZE
    &&& spec_decode(s) matches Ok(m)
    &&& spec_decode(s)->Ok_0.wf()
}

/// What a search yields on the page store `store`, descending from `off`
/// with at most `fuel` internal levels: the value found (or `None`),
/// `IOError` on an offset the store does not hold, and `CorruptTree` when a
/// page fails to decode, an internal node has no children, or the descent
/// does not terminate within `fuel` levels (a cycle).
pub open spec fn spec_search(store: Seq<Seq<u8>>, off: int, key: Seq<u8>, fuel: nat) -> Result<
    Option<Seq<u8>>,
    Error,
>
    decreases fuel,
{
    if !(0 <= off < store.len()) {
        Err(Error::IOError)
    } else {
        match spec_decode(store[off]) {
            Err(_) => Err(Error::CorruptTree),
            Ok(m) => match m.node_type {
                NodeTypeModel::Leaf { pairs } => Ok(spec_lookup(pairs, key)),
                NodeTypeModel::Internal { children, keys } => {
                    if fuel == 0 {
                        Err(Error::CorruptTree)
                    } else {
                        let i = spec_child_index(keys, key);
                        if !(0 <= i < children.len()) {
                            Err(Error::CorruptTree)
                        } else {
                            spec_search(store, children[i] as int, key, (fuel - 1) as nat)
                        }
                    }
                },
            },
        }
    }
}

/// The offset of the leaf that a search for `key` descends to, under the
/// same routing, fuel and damage reporting as `spec_search`.
pub open spec fn spec_target_leaf(store: Seq<Seq<u8>>, off: int, key: Seq<u8>, fuel: nat) -> Result<
    int,
    Error,
>
    decreases fuel,
{
    if !(0 <= off < store.len()) {
        Err(Error::IOError)
    } else {
        match spec_decode(store[off]) {
            Err(_) => Err(Error::CorruptTree),
            Ok(m) => match m.node_type {
                NodeTypeModel::Leaf { .. } => Ok(off),
                NodeTypeModel::Internal { children, keys } => {
                    if fuel == 0 {
                        Err(Error::CorruptTree)
                    } else {
                        let i = spec_child_index(keys, key);
                        if !(0 <= i < children.len()) {
                            Err(Error::CorruptTree)
                        } else {
                            spec_target_leaf(store, children[i] as int, key, (fuel - 1) as nat)
                        }
                    }
                },
            },
        }
    }
}

/// The pairs of the leaf held by the page bytes `s`; empty when `s` does
/// not hold a leaf.
pub open spec fn leaf_pairs_of(s: Seq<u8>) -> Seq<(Seq<u8>, Seq<u8>)> {
    match spec_decode(s) {
        Ok(m) => match m.node_type {
            NodeTypeModel::Leaf { pairs } => pairs,
            NodeTypeModel::Internal { .. } => Seq::empty(),
        },
        Err(_) => Seq::empty(),
    }
}

/// The B+Tree over its page store. Offsets are indices into the store; a
/// released page stays in place (its offset merely becomes eligible for
/// reuse), so the store invariant quantifies over every page.
pub struct BTree {
    pages: Vec<Page>,
    root: usize,
    free: Vec<usize>,
}

impl View for BTree {
    type V = Seq<Seq<u8>>;

    closed spec fn view(&self) -> Seq<Seq<u8>> {
        self.pages@.map_values(|p: Page| p@)
    }
}

impl BTree {
    /// The root page's offset.
    pub closed spec fn spec_root(self) -> int {
        self.root as int
    }

    /// The store invariant: the root offset is in range and every page
    /// decodes to a well-formed node -- in particular, every internal node
    /// satisfies the children/keys count and order invariant, and every leaf
    /// is strictly ascending by key.
    pub open spec fn wf(self) -> bool {
        &&& 0 <= self.spec_root() < self@.len()
        &&& forall|i: int| 0 <= i < self@.len() ==> page_bytes_wf(#[trigger] self@[i])
    }

    /// A new tree: a single empty root leaf.
    pub fn new() -> (t: BTree)
        ensures
            t.wf(),
            t@.len() == 1,
            spec_search(t@, t.spec_root(), arbitrary(), 1) == Ok::<Option<Seq<u8>>, Error>(
                None::<Seq<u8>>,
            ),
    {
        let root_node = Node::new(NodeType::Leaf(Vec::new()), true, None);
        let page = match Page::try_from(&root_node) {
            Ok(p) => p,
            Err(_) => {
                proof {
                    assert(spec_encode_err(root_node@) is None);
                }
                Page::new()
            },
        };
        proof {
            lemma_wf_rt_clean(root_node@);
        }
        let mut pages: Vec<Page> = Vec::new();
        pages.push(page);
        let t = BTree { pages, root: 0, free: Vec::new() };
        proof {
            assert(t@[0] == t.pages@[0]@);
            assert(root_node@.wf());
            assert(spec_decode(t@[0]) == Ok::<NodeModel, Error>(root_node@));
            match root_node@.node_type {
                NodeTypeModel::Leaf { pairs } => {
                    assert(pairs =~= Seq::<(Seq<u8>, Seq<u8>)>::empty());
                },
                _ => {
                    assert(false);
                },
            }
        }
        t
    }

    /// Descends from `off`, returning exactly what `spec_search` gives.
    fn search_at(&self, off: usize, key: &Vec<u8>, fuel: usize) -> (r: Result<Vec<u8>, Error>)
        requires
            self.wf(),
            off < self@.len(),
        ensures
            ({
                let sr = spec_search(self@, off as int, key@, fuel as nat);
                match r {
                    Ok(v) => sr == Ok::<Option<Seq<u8>>, Error>(Some(v@)),
                    Err(Error::NotFound) => sr == Ok::<Option<Seq<u8>>, Error>(None::<Seq<u8>>),
                    Err(e) => e != Error::NotFound && sr == Err::<Option<Seq<u8>>, Error>(e),
                }
            }),
        decreases fuel,
    {
        proof {
            assert(page_bytes_wf(self@[off as int]));
            assert(self@[off as int] == self.pages@[off as int]@);
        }
        let node = match Node::try_from(&self.pages[off]) {
            Ok(n) => n,
            Err(_) => {
                return Err(Error::CorruptTree);
            },
        };
        match node.node_type {
            NodeType::Leaf(pairs) => {
                match leaf_lookup(&pairs, key) {
                    Some(v) => Ok(v),
                    None => Err(Error::NotFound),
                }
            },
            NodeType::Internal(children, keys) => {
                if fuel == 0 {
                    return Err(Error::CorruptTree);
                }
                let i = child_index(&keys, key);
                proof {
                    lemma_child_index_bounds(keys@.map_values(|k: Key| k@), key@);
                    let m = spec_decode(self@[off as int])->Ok_0;
                    assert(m == node@);
                }
                let child = children[i].0;
                if child >= self.pages.len() as u64 {
                    return Err(Error::IOError);
                }
                self.search_at(child as usize, key, fuel - 1)
            },
        }
    }

    /// Searches the tree for `key`: the stored value, `NotFound` when the
    /// key is absent, `IOError`/`CorruptTree` exactly as `spec_search`
    /// reports damage.
    pub fn search(&self, key: &Vec<u8>) -> (r: Result<Vec<u8>, Error>)
        requires
            self.wf(),
        ensures
            ({
                let sr = spec_search(self@, self.spec_root(), key@, self@.len() as nat);
                match r {
                    Ok(v) => sr == Ok::<Option<Seq<u8>>, Error>(Some(v@)),
                    Err(Error::NotFound) => sr == Ok::<Option<Seq<u8>>, Error>(None::<Seq<u8>>),
                    Err(e) => e != Error::NotFound && sr == Err::<Option<Seq<u8>>, Error>(e),
                }
            }),
    {
        self.search_at(self.root, key, self.pages.len())
    }
}

impl BTree {
    /// Replaces the page stored at `off`.
    fn write_page(&mut self, off: usize, p: Page)
        requires
            off < old(self)@.len(),
        ensures
            final(self)@ == old(self)@.update(off as int, p@),
            final(self)@.len() == old(self)@.len(),
            final(self).spec_root() == old(self).spec_root(),
    {
        self.pages[off] = p;
        proof {
            assert(self@ =~= old(self)@.update(off as int, p@));
        }
    }

    /// Stores `p` at a fresh, previously unused offset and returns it.
    fn allocate_page(&mut self, p: Page) -> (off: usize)
        ensures
            final(self)@ == old(self)@.push(p@),
            off as int == old(self)@.len(),
            final(self)@.len() == old(self)@.len() + 1,
            final(self).spec_root() == old(self).spec_root(),
    {
        let off = self.pages.len();
        self.pages.push(p);
        proof {
            assert(self@ =~= old(self)@.push(p@));
        }
        off
    }

    /// Marks `off` eligible for reuse once no parent references it. The page
    /// itself stays in place.
    fn release_page(&mut self, off: usize)
        ensures
            final(self)@ == old(self)@,
            final(self).spec_root() == old(self).spec_root(),
    {
        self.free.push(off);
    }

    /// Rewrites the root/parent metadata of the node at `off`, leaving its
    /// payload untouched.
    fn set_node_parent(&mut self, off: usize, is_root: bool, parent: Option<u64>)
        requires
            old(self).wf(),
            off < old(self)@.len(),
            is_root <==> parent is None,
        ensures
            final(self).wf(),
            final(self)@.len() == old(self)@.len(),
            final(self).spec_root() == old(self).spec_root(),
            forall|i: int|
                0 <= i < old(self)@.len() && i != off ==> final(self)@[i] == old(self)@[i],
            ({
                let m0 = spec_decode(old(self)@[off as int])->Ok_0;
                let m1 = spec_decode(final(self)@[off as int])->Ok_0;
                &&& spec_decode(final(self)@[off as int]) is Ok
                &&& m1.node_type == m0.node_type
                &&& m1.is_root == is_root
                &&& m1.parent == parent
            }),
    {
        proof {
            assert(page_bytes_wf(self@[off as int]));
            assert(self@[off as int] == self.pages@[off as int]@);
        }
        let node = match Node::try_from(&self.pages[off]) {
            Ok(n) => n,
            Err(_) => {
                proof {
                    assert(false);
                }
                return ;
            },
        };
        let po = match parent {
            Some(v) => Some(Offset(v)),
            None => None,
        };
        let node2 = Node::new(node.node_type, is_root, po);
        proof {
            let m0 = spec_decode(self@[off as int])->Ok_0;
            assert(node2@.node_type == m0.node_type);
            assert(node2@.wf());
            lemma_wf_encodes(node2@);
        }
        let page = match Page::try_from(&node2) {
            Ok(p) => p,
            Err(_) => {
                proof {
                    assert(false);
                }
                return ;
            },
        };
        self.write_page(off, page);
        proof {
            assert(spec_decode(self@[off as int]) == Ok::<NodeModel, Error>(node2@));
            assert forall|i: int| 0 <= i < self@.len() implies page_bytes_wf(#[trigger] self@[i])
                by {
                if i != off {
                    assert(self@[i] == old(self)@[i]);
                }
            }
        }
    }
}

/// The page bytes `s` hold a leaf that stores `v` under `k`.
pub open spec fn leaf_has(s: Seq<u8>, k: Seq<u8>, v: Seq<u8>) -> bool {
    &&& spec_decode(s) is Ok
    &&& spec_decode(s)->Ok_0.node_type matches NodeTypeModel::Leaf { pairs }
    &&& ({
        let m = spec_decode(s)->Ok_0;
        match m.node_type {
            NodeTypeModel::Leaf { pairs } => spec_lookup(pairs, k) == Some(v),
            NodeTypeModel::Internal { .. } => false,
        }
    })
}

impl BTree {
    /// Descends to the leaf that routing sends `key` to, recording the
    /// offsets of the internal nodes visited, outermost first.
    fn find_leaf(&self, off: usize, key: &Vec<u8>, fuel: usize, path: &mut Vec<usize>) -> (r:
        Result<usize, Error>)
        requires
            self.wf(),
            off < self@.len(),
            forall|t: int|
                0 <= t < old(path)@.len() ==> (#[trigger] old(path)@[t]) < self@.len(),
        ensures
            forall|t: int|
                0 <= t < final(path)@.len() ==> (#[trigger] final(path)@[t]) < self@.len(),
            match r {
                Ok(leaf) => leaf < self@.len() && spec_target_leaf(
                    self@,
                    off as int,
                    key@,
                    fuel as nat,
                ) == Ok::<int, Error>(leaf as int) && ((spec_decode(
                    self@[off as int],
                )->Ok_0.node_type matches NodeTypeModel::Leaf { .. }) ==> leaf == off && final(path)@ == old(path)@) && match spec_decode(self@[leaf as int])->Ok_0.node_type {
                    NodeTypeModel::Leaf { pairs } => spec_search(
                        self@,
                        off as int,
                        key@,
                        fuel as nat,
                    ) == Ok::<Option<Seq<u8>>, Error>(spec_lookup(pairs, key@)),
                    NodeTypeModel::Internal { .. } => false,
                },
                Err(e) => (e == Error::CorruptTree || e == Error::IOError) && spec_search(
                    self@,
                    off as int,
                    key@,
                    fuel as nat,
                ) == Err::<Option<Seq<u8>>, Error>(e) && spec_target_leaf(
                    self@,
                    off as int,
                    key@,
                    fuel as nat,
                ) == Err::<int, Error>(e),
            },
        decreases fuel,
    {
        proof {
            assert(page_bytes_wf(self@[off as int]));
            assert(self@[off as int] == self.pages@[off as int]@);
        }
        let node = match Node::try_from(&self.pages[off]) {
            Ok(n) => n,
            Err(_) => {
                return Err(Error::CorruptTree);
            },
        };
        match node.node_type {
            NodeType::Leaf(_) => Ok(off),
            NodeType::Internal(children, keys) => {
                if fuel == 0 {
                    return Err(Error::CorruptTree);
                }
                let i = child_index(&keys, key);
                proof {
                    lemma_child_index_bounds(keys@.map_values(|k: Key| k@), key@);
                    let m = spec_decode(self@[off as int])->Ok_0;
                    assert(m == node@);
                }
                let child = children[i].0;
                if child >= self.pages.len() as u64 {
                    return Err(Error::IOError);
                }
                path.push(off);
                self.find_leaf(child as usize, key, fuel - 1, path)
            },
        }
    }

    /// Stage one of an insert: places `(key, value)` in the leaf at
    /// `leaf_off`, splitting it at the median when it outgrows one page. On
    /// a split the lower half keeps `leaf_off`, the upper half is allocated
    /// a fresh offset (returned with the separator key, the first key of the
    /// upper half), and both halves point at `par` as their parent.
    #[verifier::rlimit(100)]
    fn leaf_stage(&mut self, leaf_off: usize, key: &Vec<u8>, value: &Vec<u8>, par: u64) -> (r:
        Result<Option<(usize, Vec<u8>)>, Error>)
        requires
            old(self).wf(),
            leaf_off < old(self)@.len(),
            spec_decode(old(self)@[leaf_off as int])->Ok_0.node_type matches NodeTypeModel::Leaf {
                ..
            },
            key_ok(key@),
            value_ok(value@),
        ensures
            final(self).wf(),
            final(self).spec_root() == old(self).spec_root(),
            final(self)@.len() >= old(self)@.len(),
            match r {
                Ok(step) => (exists|w: int|
                    0 <= w < final(self)@.len() && #[trigger] leaf_has(
                        final(self)@[w],
                        key@,
                        value@,
                    )) && match step {
                    Some((u_off, sep)) => u_off < final(self)@.len() && key_ok(sep@) && ({
                        // split preserves count: the two leaves together hold
                        // the pre-split pairs, which are the old pairs plus
                        // the one inserted
                        let p0 = leaf_pairs_of(old(self)@[leaf_off as int]);
                        let pc = leaf_pairs_of(final(self)@[leaf_off as int]) + leaf_pairs_of(
                            final(self)@[u_off as int],
                        );
                        &&& spec_lookup(pc, key@) == Some(value@)
                        &&& (forall|k2: Seq<u8>|
                            k2 != key@ ==> spec_lookup(pc, k2) == spec_lookup(p0, k2))
                        &&& pc.len() == p0.len() + (if spec_lookup(p0, key@) is Some {
                            0int
                        } else {
                            1
                        })
                    }),
                    None => true,
                },
                Err(e) => e == Error::CorruptTree || e == Error::IOError,
            },
            leaf_pairs_of(old(self)@[leaf_off as int]).len() < MAX_LEAF_PAIRS ==> ({
                let p0 = leaf_pairs_of(old(self)@[leaf_off as int]);
                let p1 = leaf_pairs_of(final(self)@[leaf_off as int]);
                &&& r == Ok::<Option<(usize, Vec<u8>)>, Error>(None::<(usize, Vec<u8>)>)
                &&& final(self)@.len() == old(self)@.len()
                &&& (forall|i: int|
                    0 <= i < old(self)@.len() && i != leaf_off ==> final(self)@[i] == old(
                        self,
                    )@[i])
                &&& (spec_decode(final(self)@[leaf_off as int])->Ok_0.node_type matches
                NodeTypeModel::Leaf { .. })
                &&& spec_lookup(p1, key@) == Some(value@)
                &&& (forall|k2: Seq<u8>| k2 != key@ ==> spec_lookup(p1, k2) == spec_lookup(p0, k2))
            }),
    {
        proof {
            assert(page_bytes_wf(self@[leaf_off as int]));
            assert(self@[leaf_off as int] == self.pages@[leaf_off as int]@);
        }
        let node = match Node::try_from(&self.pages[leaf_off]) {
            Ok(n) => n,
            Err(_) => {
                return Err(Error::CorruptTree);
            },
        };
        let ghost m0 = spec_decode(self@[leaf_off as int])->Ok_0;
        let l_root = node.is_root;
        let l_parent = node.parent_offset;
        let mut pairs = match node.node_type {
            NodeType::Leaf(p) => p,
            NodeType::Internal(..) => {
                return Err(Error::CorruptTree);
            },
        };
        let ghost before_pairs = pairs_view(pairs@);
        proof {
            assert(m0.wf());
            assert(pairs_sorted(before_pairs));
            assert(before_pairs.len() <= MAX_LEAF_PAIRS);
        }
        leaf_insert(&mut pairs, key, clone_bytes(value));
        let ghost after_pairs = pairs_view(pairs@);
        proof {
            assert forall|i: int|
                0 <= i < after_pairs.len() implies key_ok((#[trigger] after_pairs[i]).0)
                    && value_ok(after_pairs[i].1) by {
                if after_pairs[i] != (key@, value@) {
                    assert(before_pairs.contains(after_pairs[i]));
                    let j = choose|j: int|
                        0 <= j < before_pairs.len() && before_pairs[j] == after_pairs[i];
                    assert(key_ok(before_pairs[j].0) && value_ok(before_pairs[j].1));
                }
            }
        }
        if pairs.len() <= MAX_LEAF_PAIRS {
            let n2 = Node::new(NodeType::Leaf(pairs), l_root, l_parent);
            proof {
                assert(n2@.is_root == m0.is_root && n2@.parent == m0.parent);
                assert(n2@.wf());
                lemma_wf_encodes(n2@);
            }
            let pg = match Page::try_from(&n2) {
                Ok(p) => p,
                Err(_) => {
                    proof {
                        assert(false);
                    }
                    return Err(Error::CorruptTree);
                },
            };
            let ghost s_pre = self@;
            self.write_page(leaf_off, pg);
            proof {
                assert(spec_decode(self@[leaf_off as int]) == Ok::<NodeModel, Error>(n2@));
                assert forall|i: int| 0 <= i < self@.len() implies page_bytes_wf(
                    #[trigger] self@[i],
                ) by {
                    if i != leaf_off as int {
                        assert(self@[i] == s_pre[i]);
                    }
                }
                assert(leaf_has(self@[leaf_off as int], key@, value@));
            }
            return Ok(None);
        }
        proof {
            assert(after_pairs.len() == MAX_LEAF_PAIRS + 1);
        }
        let mid = pairs.len() / 2;
        let upper_pairs = pairs.split_off(mid);
        let sep = clone_bytes(&upper_pairs[0].key);
        let ghost lowv = pairs_view(pairs@);
        let ghost upv = pairs_view(upper_pairs@);
        proof {
            assert(lowv =~= after_pairs.subrange(0, mid as int));
            assert(upv =~= after_pairs.subrange(mid as int, after_pairs.len() as int));
            lemma_sorted_subrange_pairs(after_pairs, 0, mid as int);
            lemma_sorted_subrange_pairs(after_pairs, mid as int, after_pairs.len() as int);
            assert(upv[0] == after_pairs[mid as int]);
            assert(key_ok(sep@));
        }
        let lower_node = Node::new(NodeType::Leaf(pairs), false, Some(Offset(par)));
        proof {
            assert(lower_node@.wf());
            lemma_wf_encodes(lower_node@);
        }
        let lower_pg = match Page::try_from(&lower_node) {
            Ok(p) => p,
            Err(_) => {
                proof {
                    assert(false);
                }
                return Err(Error::CorruptTree);
            },
        };
        let upper_node = Node::new(NodeType::Leaf(upper_pairs), false, Some(Offset(par)));
        proof {
            assert(upper_node@.wf());
            lemma_wf_encodes(upper_node@);
        }
        let upper_pg = match Page::try_from(&upper_node) {
            Ok(p) => p,
            Err(_) => {
                proof {
                    assert(false);
                }
                return Err(Error::CorruptTree);
            },
        };
        let ghost s_pre = self@;
        self.write_page(leaf_off, lower_pg);
        let u_off = self.allocate_page(upper_pg);
        proof {
            assert(spec_decode(self@[leaf_off as int]) == Ok::<NodeModel, Error>(lower_node@));
            assert(spec_decode(self@[u_off as int]) == Ok::<NodeModel, Error>(upper_node@));
            assert forall|i: int| 0 <= i < self@.len() implies page_bytes_wf(#[trigger] self@[i])
                by {
                if i != leaf_off as int && i != u_off as int {
                    assert(self@[i] == s_pre[i]);
                }
            }
            lemma_lookup_concat(lowv, upv, key@);
            assert(lowv + upv =~= after_pairs);
            assert(spec_lookup(after_pairs, key@) == Some(value@));
            if spec_lookup(lowv, key@) is Some {
                assert(leaf_has(self@[leaf_off as int], key@, value@));
            } else {
                assert(leaf_has(self@[u_off as int], key@, value@));
            }
        }
        Ok(Some((u_off, sep)))
    }

    /// One step of split propagation: enters the separator `sep` and the
    /// new sibling offset `new_off` into the internal node at `parent_off`.
    /// When that node outgrows one page it splits in turn: the middle key is
    /// promoted, the upper half moves to a fresh offset whose children are
    /// re-pointed at it, and the promoted key with the fresh offset is
    /// returned to continue upward.
    #[verifier::rlimit(100)]
    fn parent_stage(
        &mut self,
        parent_off: usize,
        new_off: usize,
        sep: &Vec<u8>,
        par2: u64,
        Ghost(k): Ghost<Seq<u8>>,
        Ghost(v): Ghost<Seq<u8>>,
    ) -> (r: Result<Option<(usize, Vec<u8>)>, Error>)
        requires
            old(self).wf(),
            parent_off < old(self)@.len(),
            new_off < old(self)@.len(),
            key_ok(sep@),
            exists|w: int|
                0 <= w < old(self)@.len() && #[trigger] leaf_has(old(self)@[w], k, v),
        ensures
            final(self).wf(),
            final(self).spec_root() == old(self).spec_root(),
            final(self)@.len() >= old(self)@.len(),
            match r {
                Ok(step) => (exists|w: int|
                    0 <= w < final(self)@.len() && #[trigger] leaf_has(final(self)@[w], k, v))
                    && match step {
                    Some((u2_off, promoted)) => u2_off < final(self)@.len() && key_ok(promoted@),
                    None => true,
                },
                Err(e) => e == Error::CorruptTree || e == Error::IOError,
            },
    {
        proof {
            assert(page_bytes_wf(self@[parent_off as int]));
            assert(self@[parent_off as int] == self.pages@[parent_off as int]@);
        }
        let pnode = match Node::try_from(&self.pages[parent_off]) {
            Ok(n) => n,
            Err(_) => {
                return Err(Error::CorruptTree);
            },
        };
        let ghost pm = spec_decode(self@[parent_off as int])->Ok_0;
        let p_root = pnode.is_root;
        let p_parent = pnode.parent_offset;
        let (mut children, mut keys) = match pnode.node_type {
            NodeType::Internal(c, ks) => (c, ks),
            NodeType::Leaf(_) => {
                return Err(Error::CorruptTree);
            },
        };
        let ghost kv0 = keys@.map_values(|q: Key| q@);
        let ghost cv0 = children@.map_values(|c: Offset| c@);
        proof {
            assert(pm.wf());
            assert(keys_sorted(kv0));
            assert(cv0.len() == kv0.len() + 1);
            assert(cv0.len() <= MAX_INTERNAL_CHILDREN);
        }
        let j = child_index(&keys, sep);
        proof {
            lemma_child_index_props(kv0, sep@);
        }
        if j > 0 {
            if !key_less(&keys[j - 1].0, sep) {
                return Err(Error::CorruptTree);
            }
        }
        proof {
            assert forall|m: int| 0 <= m < j implies key_lt(#[trigger] kv0[m], sep@) by {
                if m < j - 1 {
                    assert(key_lt(kv0[m], kv0[j - 1]));
                    lemma_key_lt_trans(kv0[m], kv0[j - 1], sep@);
                }
            }
            assert forall|m: int| j <= m < kv0.len() implies key_lt(sep@, #[trigger] kv0[m]) by {
                if m > j {
                    assert(key_lt(kv0[j as int], kv0[m]));
                    lemma_key_lt_trans(sep@, kv0[j as int], kv0[m]);
                }
            }
            lemma_sorted_insert_keys(kv0, j as int, sep@);
        }
        keys.insert(j, Key(clone_bytes(sep)));
        children.insert(j + 1, Offset(new_off as u64));
        let ghost kv1 = keys@.map_values(|q: Key| q@);
        let ghost cv1 = children@.map_values(|c: Offset| c@);
        proof {
            assert(kv1 =~= kv0.insert(j as int, sep@));
            assert(cv1 =~= cv0.insert(j as int + 1, new_off as u64));
            assert(keys_sorted(kv1));
            assert forall|m: int| 0 <= m < kv1.len() implies key_ok(#[trigger] kv1[m]) by {
                if m < j {
                    assert(kv1[m] == kv0[m]);
                } else if m > j {
                    assert(kv1[m] == kv0[m - 1]);
                }
            }
        }
        if children.len() <= MAX_INTERNAL_CHILDREN {
            let n2 = Node::new(NodeType::Internal(children, keys), p_root, p_parent);
            proof {
                assert(n2@.is_root == pm.is_root && n2@.parent == pm.parent);
                assert(n2@.wf());
                lemma_wf_encodes(n2@);
            }
            let pg = match Page::try_from(&n2) {
                Ok(p) => p,
                Err(_) => {
                    proof {
                        assert(false);
                    }
                    return Err(Error::CorruptTree);
                },
            };
            let ghost w0 = choose|w: int| 0 <= w < self@.len() && leaf_has(self@[w], k, v);
            let ghost s_pre = self@;
            self.write_page(parent_off, pg);
            proof {
                assert(spec_decode(self@[parent_off as int]) == Ok::<NodeModel, Error>(n2@));
                assert forall|i: int| 0 <= i < self@.len() implies page_bytes_wf(
                    #[trigger] self@[i],
                ) by {
                    if i != parent_off as int {
                        assert(self@[i] == s_pre[i]);
                    }
                }
                assert(w0 != parent_off as int);
                assert(self@[w0] == s_pre[w0]);
                assert(leaf_has(self@[w0], k, v));
            }
            return Ok(None);
        }
        proof {
            assert(cv1.len() == MAX_INTERNAL_CHILDREN + 1);
            assert(kv1.len() == MAX_INTERNAL_CHILDREN);
        }
        let kmid = keys.len() / 2;
        let upper_keys = keys.split_off(kmid + 1);
        let promoted = match keys.pop() {
            Some(q) => q,
            None => {
                return Err(Error::CorruptTree);
            },
        };
        let upper_children = children.split_off(kmid + 1);
        let ghost lkv = keys@.map_values(|q: Key| q@);
        let ghost ukv = upper_keys@.map_values(|q: Key| q@);
        let ghost lcv = children@.map_values(|c: Offset| c@);
        let ghost ucv = upper_children@.map_values(|c: Offset| c@);
        proof {
            assert(lkv =~= kv1.subrange(0, kmid as int));
            assert(ukv =~= kv1.subrange(kmid as int + 1, kv1.len() as int));
            assert(lcv =~= cv1.subrange(0, kmid as int + 1));
            assert(ucv =~= cv1.subrange(kmid as int + 1, cv1.len() as int));
            lemma_sorted_subrange_keys(kv1, 0, kmid as int);
            lemma_sorted_subrange_keys(kv1, kmid as int + 1, kv1.len() as int);
            assert forall|m: int| 0 <= m < lkv.len() implies key_ok(#[trigger] lkv[m]) by {
                assert(lkv[m] == kv1[m]);
            }
            assert forall|m: int| 0 <= m < ukv.len() implies key_ok(#[trigger] ukv[m]) by {
                assert(ukv[m] == kv1[kmid as int + 1 + m]);
            }
            assert(promoted@ == kv1[kmid as int]);
            assert(key_ok(promoted@));
        }
        let un = Node::new(
            NodeType::Internal(upper_children, upper_keys),
            false,
            Some(Offset(par2)),
        );
        proof {
            assert(un@.wf());
            lemma_wf_encodes(un@);
        }
        let upg = match Page::try_from(&un) {
            Ok(p) => p,
            Err(_) => {
                proof {
                    assert(false);
                }
                return Err(Error::CorruptTree);
            },
        };
        let ln = Node::new(NodeType::Internal(children, keys), false, Some(Offset(par2)));
        proof {
            assert(ln@.wf());
            lemma_wf_encodes(ln@);
        }
        let lpg = match Page::try_from(&ln) {
            Ok(p) => p,
            Err(_) => {
                proof {
                    assert(false);
                }
                return Err(Error::CorruptTree);
            },
        };
        let ghost w0 = choose|w: int| 0 <= w < self@.len() && leaf_has(self@[w], k, v);
        let ghost s_pre = self@;
        self.write_page(parent_off, lpg);
        let u2_off = self.allocate_page(upg);
        proof {
            assert(spec_decode(self@[parent_off as int]) == Ok::<NodeModel, Error>(ln@));
            assert(spec_decode(self@[u2_off as int]) == Ok::<NodeModel, Error>(un@));
            assert forall|i: int| 0 <= i < self@.len() implies page_bytes_wf(#[trigger] self@[i])
                by {
                if i != parent_off as int && i != u2_off as int {
                    assert(self@[i] == s_pre[i]);
                }
            }
            assert(w0 != parent_off as int);
            assert(self@[w0] == s_pre[w0]);
            assert(leaf_has(self@[w0], k, v));
        }
        let ucs = match &un.node_type {
            NodeType::Internal(cs, _) => cs,
            NodeType::Leaf(_) => {
                return Err(Error::CorruptTree);
            },
        };
        let mut t: usize = 0;
        while t < ucs.len()
            invariant
                self.wf(),
                t <= ucs@.len(),
                u2_off < self@.len(),
                self@.len() >= old(self)@.len(),
                self.spec_root() == old(self).spec_root(),
                exists|w: int| 0 <= w < self@.len() && #[trigger] leaf_has(self@[w], k, v),
            decreases ucs@.len() - t,
        {
            let c = ucs[t].0;
            if c >= self.pages.len() as u64 {
                return Err(Error::IOError);
            }
            let ghost w1 = choose|w: int| 0 <= w < self@.len() && leaf_has(self@[w], k, v);
            let ghost s_pre4 = self@;
            self.set_node_parent(c as usize, false, Some(u2_off as u64));
            proof {
                if w1 == c as int {
                    let mb = spec_decode(s_pre4[w1])->Ok_0;
                    let ma = spec_decode(self@[w1])->Ok_0;
                    assert(ma.node_type == mb.node_type);
                    assert(leaf_has(self@[w1], k, v));
                } else {
                    assert(self@[w1] == s_pre4[w1]);
                    assert(leaf_has(self@[w1], k, v));
                }
            }
            t = t + 1;
        }
        Ok(Some((u2_off, promoted.0)))
    }

    /// Grows a new root over the two halves of a root that split, updating
    /// the halves' root flags and parent pointers.
    fn grow_root(
        &mut self,
        child_off: usize,
        new_off: usize,
        sep: Vec<u8>,
        Ghost(k): Ghost<Seq<u8>>,
        Ghost(v): Ghost<Seq<u8>>,
    )
        requires
            old(self).wf(),
            child_off < old(self)@.len(),
            new_off < old(self)@.len(),
            key_ok(sep@),
            exists|w: int|
                0 <= w < old(self)@.len() && #[trigger] leaf_has(old(self)@[w], k, v),
        ensures
            final(self).wf(),
            exists|w: int|
                0 <= w < final(self)@.len() && #[trigger] leaf_has(final(self)@[w], k, v),
    {
        let mut rc: Vec<Offset> = Vec::new();
        rc.push(Offset(child_off as u64));
        rc.push(Offset(new_off as u64));
        let mut rk: Vec<Key> = Vec::new();
        rk.push(Key(sep));
        let rn = Node::new(NodeType::Internal(rc, rk), true, None);
        proof {
            let rkv = rk@.map_values(|q: Key| q@);
            assert(rkv.len() == 1);
            assert(keys_sorted(rkv));
            assert(rn@.wf());
            lemma_wf_encodes(rn@);
        }
        let rpg = match Page::try_from(&rn) {
            Ok(p) => p,
            Err(_) => {
                proof {
                    assert(false);
                }
                return ;
            },
        };
        let ghost w0 = choose|w: int| 0 <= w < self@.len() && leaf_has(self@[w], k, v);
        let ghost s_pre = self@;
        let r_off = self.allocate_page(rpg);
        proof {
            assert(spec_decode(self@[r_off as int]) == Ok::<NodeModel, Error>(rn@));
            assert forall|i: int| 0 <= i < self@.len() implies page_bytes_wf(#[trigger] self@[i])
                by {
                if i != r_off as int {
                    assert(self@[i] == s_pre[i]);
                }
            }
        }
        let ghost s_pre6 = self@;
        self.set_node_parent(child_off, false, Some(r_off as u64));
        proof {
            if w0 == child_off as int {
                let mb = spec_decode(s_pre6[w0])->Ok_0;
                let ma = spec_decode(self@[w0])->Ok_0;
                assert(ma.node_type == mb.node_type);
            } else {
                assert(self@[w0] == s_pre6[w0]);
            }
            assert(leaf_has(self@[w0], k, v));
        }
        let ghost s_pre7 = self@;
        self.set_node_parent(new_off, false, Some(r_off as u64));
        proof {
            if w0 == new_off as int {
                let mb = spec_decode(s_pre7[w0])->Ok_0;
                let ma = spec_decode(self@[w0])->Ok_0;
                assert(ma.node_type == mb.node_type);
            } else {
                assert(self@[w0] == s_pre7[w0]);
            }
            assert(leaf_has(self@[w0], k, v));
        }
        self.root = r_off;
        proof {
            assert(0 <= w0 < self@.len());
            assert(leaf_has(self@[w0], k, v));
            assert(exists|w: int| 0 <= w < self@.len() && #[trigger] leaf_has(self@[w], k, v));
        }
    }

    /// Inserts `(key, value)` into the tree, replacing the stored value when
    /// the key is already present, splitting the target leaf and then its
    /// ancestors whenever a node outgrows one page, and growing a new root
    /// when the root itself splits. Oversized or unrepresentable inputs are
    /// rejected before any page is touched, leaving the tree unchanged; on
    /// success some leaf of the tree holds `value` under `key`.
    #[verifier::loop_isolation(false)]
    pub fn insert(&mut self, key: &Vec<u8>, value: &Vec<u8>) -> (r: Result<(), Error>)
        requires
            old(self).wf(),
        ensures
            final(self).wf(),
            key@.len() > KEY_SIZE ==> r == Err::<(), Error>(Error::KeyTooLong) && final(self)@
                == old(self)@,
            key@.len() <= KEY_SIZE && value@.len() > VALUE_SIZE ==> r == Err::<(), Error>(
                Error::ValueTooLong,
            ) && final(self)@ == old(self)@,
            key@.len() <= KEY_SIZE && value@.len() <= VALUE_SIZE && !(zero_clean(key@)
                && zero_clean(value@) && is_utf8(key@) && is_utf8(value@)) ==> r == Err::<
                (),
                Error,
            >(Error::EncodingError) && final(self)@ == old(self)@,
            key_ok(key@) && value_ok(value@) ==> (r matches Ok(_) || r == Err::<(), Error>(
                Error::CorruptTree,
            ) || r == Err::<(), Error>(Error::IOError)),
            r matches Ok(_) ==> exists|w: int|
                0 <= w < final(self)@.len() && #[trigger] leaf_has(
                    final(self)@[w],
                    key@,
                    value@,
                ),
            ({
                let tl = spec_target_leaf(
                    old(self)@,
                    old(self).spec_root(),
                    key@,
                    old(self)@.len() as nat,
                );
                key_ok(key@) && value_ok(value@) && (tl matches Ok(lo)) && leaf_pairs_of(
                    old(self)@[tl->Ok_0],
                ).len() < MAX_LEAF_PAIRS ==> ({
                    let p0 = leaf_pairs_of(old(self)@[tl->Ok_0]);
                    let p1 = leaf_pairs_of(final(self)@[tl->Ok_0]);
                    &&& r == Ok::<(), Error>(())
                    &&& final(self)@.len() == old(self)@.len()
                    &&& final(self).spec_root() == old(self).spec_root()
                    &&& (forall|i: int|
                        0 <= i < old(self)@.len() && i != tl->Ok_0 ==> final(self)@[i] == old(
                            self,
                        )@[i])
                    &&& spec_lookup(p1, key@) == Some(value@)
                    &&& (forall|k2: Seq<u8>|
                        k2 != key@ ==> spec_lookup(p1, k2) == spec_lookup(p0, k2))
                })
            }),
    {
        if key.len() > KEY_SIZE {
            return Err(Error::KeyTooLong);
        }
        if value.len() > VALUE_SIZE {
            return Err(Error::ValueTooLong);
        }
        if !bytes_clean(key) || !bytes_clean(value) || !is_valid_utf8(key) || !is_valid_utf8(
            value,
        ) {
            return Err(Error::EncodingError);
        }
        let mut path: Vec<usize> = Vec::new();
        let root = self.root;
        let fuel = self.pages.len();
        let leaf_off = match self.find_leaf(root, key, fuel, &mut path) {
            Ok(l) => l,
            Err(e) => {
                return Err(e);
            },
        };
        let par: u64 = if path.len() > 0 {
            path[path.len() - 1] as u64
        } else {
            0
        };
        let step = match self.leaf_stage(leaf_off, key, value, par) {
            Ok(st) => st,
            Err(e) => {
                return Err(e);
            },
        };
        let (mut new_off, mut sep) = match step {
            None => {
                return Ok(());
            },
            Some(st) => st,
        };
        let mut child_off = leaf_off;
        while path.len() > 0
            invariant
                self.wf(),
                child_off < self@.len(),
                new_off < self@.len(),
                forall|t: int| 0 <= t < path@.len() ==> (#[trigger] path@[t]) < self@.len(),
                key_ok(sep@),
                exists|w: int|
                    0 <= w < self@.len() && #[trigger] leaf_has(self@[w], key@, value@),
            decreases path@.len(),
        {
            let parent_off = match path.pop() {
                Some(p) => p,
                None => {
                    return Err(Error::CorruptTree);
                },
            };
            let par2: u64 = if path.len() > 0 {
                path[path.len() - 1] as u64
            } else {
                0
            };
            let step = match self.parent_stage(
                parent_off,
                new_off,
                &sep,
                par2,
                Ghost(key@),
                Ghost(value@),
            ) {
                Ok(st) => st,
                Err(e) => {
                    return Err(e);
                },
            };
            match step {
                None => {
                    return Ok(());
                },
                Some((u2_off, promoted)) => {
                    child_off = parent_off;
                    new_off = u2_off;
                    sep = promoted;
                },
            }
        }
        self.grow_root(child_off, new_off, sep, Ghost(key@), Ghost(value@));
        Ok(())
    }

    /// The position of `target` among an internal node's children.
    fn find_child_pos(children: &Vec<Offset>, target: u64) -> (r: Option<usize>)
        ensures
            match r {
                Some(i) => i < children@.len() && children@[i as int]@ == target,
                None => true,
            },
    {
        let mut i: usize = 0;
        while i < children.len()
            invariant
                i <= children@.len(),
            decreases children@.len() - i,
        {
            if children[i].0 == target {
                return Some(i);
            }
            i = i + 1;
        }
        None
    }

    /// Writes a leaf's updated pairs back to `off`, keeping its metadata.
    #[verifier::rlimit(60)]
    fn write_leaf(
        &mut self,
        off: usize,
        pairs: Vec<KeyValuePair>,
        is_root: bool,
        parent_offset: Option<Offset>,
    ) -> (r: Result<(), Error>)
        requires
            old(self).wf(),
            off < old(self)@.len(),
            is_root <==> parent_offset is None,
            pairs_sorted(pairs_view(pairs@)),
            pairs@.len() <= MAX_LEAF_PAIRS,
            forall|i: int|
                0 <= i < pairs@.len() ==> key_ok((#[trigger] pairs_view(pairs@)[i]).0) && value_ok(
                    pairs_view(pairs@)[i].1,
                ),
        ensures
            final(self).wf(),
            final(self)@.len() == old(self)@.len(),
            final(self).spec_root() == old(self).spec_root(),
            r matches Ok(_),
            forall|i: int|
                0 <= i < old(self)@.len() && i != off ==> final(self)@[i] == old(self)@[i],
            ({
                let m = spec_decode(final(self)@[off as int]);
                m is Ok && m->Ok_0.node_type == NodeTypeModel::Leaf { pairs: pairs_view(pairs@) }
            }),
    {
        let ghost pv = pairs_view(pairs@);
        let n2 = Node::new(NodeType::Leaf(pairs), is_root, parent_offset);
        proof {
            assert(n2@.wf());
            lemma_wf_encodes(n2@);
        }
        let pg = match Page::try_from(&n2) {
            Ok(p) => p,
            Err(_) => {
                proof {
                    assert(false);
                }
                return Err(Error::CorruptTree);
            },
        };
        let ghost s_pre = self@;
        self.write_page(off, pg);
        proof {
            assert(spec_decode(self@[off as int]) == Ok::<NodeModel, Error>(n2@));
            assert forall|i: int| 0 <= i < self@.len() implies page_bytes_wf(#[trigger] self@[i])
                by {
                if i != off as int {
                    assert(self@[i] == s_pre[i]);
                }
            }
        }
        Ok(())
    }

    /// Borrows one pair across the boundary of two neighbouring leaves and
    /// refreshes the separator between them in their parent: together the
    /// two leaves keep exactly the pairs they held.
    #[verifier::rlimit(100)]
    fn borrow_leaves(
        &mut self,
        parent_off: usize,
        l_off: usize,
        r_off: usize,
        li: usize,
        underfull_left: bool,
        children: Vec<Offset>,
        keys: Vec<Key>,
        p_root: bool,
        p_parent: Option<Offset>,
        lpairs: Vec<KeyValuePair>,
        l_is_root: bool,
        l_parent: Option<Offset>,
        rpairs: Vec<KeyValuePair>,
        r_is_root: bool,
        r_parent: Option<Offset>,
    ) -> (r: Result<(), Error>)
        requires
            old(self).wf(),
            parent_off < old(self)@.len(),
            l_off < old(self)@.len(),
            r_off < old(self)@.len(),
            l_off != r_off,
            l_off != parent_off,
            r_off != parent_off,
            spec_decode(old(self)@[parent_off as int]) == Ok::<NodeModel, Error>(
                crate::codec::internal_model(children@, keys@, p_root, p_parent),
            ),
            spec_decode(old(self)@[l_off as int]) == Ok::<NodeModel, Error>(
                crate::codec::leaf_model(lpairs@, l_is_root, l_parent),
            ),
            spec_decode(old(self)@[r_off as int]) == Ok::<NodeModel, Error>(
                crate::codec::leaf_model(rpairs@, r_is_root, r_parent),
            ),
            li < keys@.len(),
        ensures
            final(self).wf(),
            final(self)@.len() == old(self)@.len(),
            r matches Err(e) ==> e == Error::CorruptTree || e == Error::IOError,
            r matches Ok(_) ==> leaf_pairs_of(final(self)@[l_off as int]) + leaf_pairs_of(
                final(self)@[r_off as int],
            ) == pairs_view(lpairs@) + pairs_view(rpairs@),
    {
        let mut keys = keys;
        let mut lpairs = lpairs;
        let mut rpairs = rpairs;
        let ghost pm = crate::codec::internal_model(children@, keys@, p_root, p_parent);
        let ghost kv0 = keys@.map_values(|q: Key| q@);
        let ghost lv0 = pairs_view(lpairs@);
        let ghost rv0 = pairs_view(rpairs@);
        let pos = if underfull_left {
            li
        } else {
            li + 1
        };
        proof {
            assert(page_bytes_wf(self@[parent_off as int]));
            assert(page_bytes_wf(self@[l_off as int]));
            assert(page_bytes_wf(self@[r_off as int]));
            assert(pm.wf());
            assert(keys_sorted(kv0));
            assert(pairs_sorted(lv0) && pairs_sorted(rv0));
            assert(lv0.len() <= MAX_LEAF_PAIRS && rv0.len() <= MAX_LEAF_PAIRS);
        }
            // borrow one pair across the boundary
            if pos == li {
                // the underfull leaf is on the left: take the right's first
                if rpairs.len() == 0 {
                    return Err(Error::CorruptTree);
                }
                if lpairs.len() >= MAX_LEAF_PAIRS {
                    return Err(Error::CorruptTree);
                }
                let moved = rpairs.remove(0);
                if lpairs.len() > 0 {
                    if !key_less(&lpairs[lpairs.len() - 1].key, &moved.key) {
                        return Err(Error::CorruptTree);
                    }
                }
                let ghost mv = moved@;
                lpairs.push(moved);
                proof {
                    let lv1 = pairs_view(lpairs@);
                    assert(lv1 =~= lv0.push(mv));
                    assert(mv == rv0[0]);
                    assert forall|p: int, q: int| 0 <= p < q < lv1.len() implies key_lt(
                        lv1[p].0,
                        lv1[q].0,
                    ) by {
                        if q == lv1.len() - 1 && p < lv0.len() {
                            if p < lv0.len() - 1 {
                                assert(key_lt(lv0[p].0, lv0[lv0.len() - 1].0));
                                lemma_key_lt_trans(lv0[p].0, lv0[lv0.len() - 1].0, mv.0);
                            }
                        } else {
                            assert(lv1[p] == lv0[p] && lv1[q] == lv0[q]);
                        }
                    }
                    assert(pairs_view(rpairs@) =~= rv0.remove(0));
                    crate::node::lemma_sorted_remove_pairs(rv0, 0);
                    assert(pairs_view(lpairs@) + pairs_view(rpairs@) =~= lv0 + rv0);
                }
            } else {
                // the underfull leaf is on the right: take the left's last
                if rpairs.len() >= MAX_LEAF_PAIRS {
                    return Err(Error::CorruptTree);
                }
                let moved = match lpairs.pop() {
                    Some(m) => m,
                    None => {
                        return Err(Error::CorruptTree);
                    },
                };
                if rpairs.len() > 0 {
                    if !key_less(&moved.key, &rpairs[0].key) {
                        return Err(Error::CorruptTree);
                    }
                }
                let ghost mv = moved@;
                proof {
                    assert(pairs_view(lpairs@) =~= lv0.subrange(0, lv0.len() - 1));
                    lemma_sorted_subrange_pairs(lv0, 0, lv0.len() - 1);
                    assert(mv == lv0[lv0.len() - 1]);
                    assert forall|m: int| 0 <= m < pairs_view(rpairs@).len() implies key_lt(
                        mv.0,
                        (#[trigger] pairs_view(rpairs@)[m]).0,
                    ) by {
                        if m > 0 {
                            assert(key_lt(rv0[0].0, rv0[m].0));
                            lemma_key_lt_trans(mv.0, rv0[0].0, rv0[m].0);
                        }
                    }
                    lemma_sorted_insert_pairs(rv0, 0, mv);
                }
                rpairs.insert(0, moved);
                proof {
                    assert(pairs_view(rpairs@) =~= rv0.insert(0, mv));
                    assert(pairs_view(lpairs@) + pairs_view(rpairs@) =~= lv0 + rv0);
                }
            }
            if rpairs.len() == 0 {
                return Err(Error::CorruptTree);
            }
            let new_sep = clone_bytes(&rpairs[0].key);
            proof {
                let rv1 = pairs_view(rpairs@);
                assert(new_sep@ == rv1[0].0);
                assert(key_ok(new_sep@));
            }
            // replace the separator between the two leaves, keeping order
            if li >= keys.len() {
                return Err(Error::CorruptTree);
            }
            if li > 0 {
                if !key_less(&keys[li - 1].0, &new_sep) {
                    return Err(Error::CorruptTree);
                }
            }
            if li + 1 < keys.len() {
                if !key_less(&new_sep, &keys[li + 1].0) {
                    return Err(Error::CorruptTree);
                }
            }
            keys.remove(li);
            proof {
                assert(keys@.map_values(|q: Key| q@) =~= kv0.remove(li as int));
                lemma_sorted_remove_keys(kv0, li as int);
            }
            let ghost kvr = keys@.map_values(|q: Key| q@);
            proof {
                assert forall|m: int| 0 <= m < li implies key_lt(#[trigger] kvr[m], new_sep@) by {
                    assert(kvr[m] == kv0[m]);
                    if m < li - 1 {
                        assert(key_lt(kv0[m], kv0[li - 1]));
                        lemma_key_lt_trans(kv0[m], kv0[li - 1], new_sep@);
                    }
                }
                assert forall|m: int| li <= m < kvr.len() implies key_lt(
                    new_sep@,
                    #[trigger] kvr[m],
                ) by {
                    assert(kvr[m] == kv0[m + 1]);
                    if m > li {
                        assert(key_lt(kv0[li as int + 1], kv0[m + 1]));
                        lemma_key_lt_trans(new_sep@, kv0[li as int + 1], kv0[m + 1]);
                    }
                }
                lemma_sorted_insert_keys(kvr, li as int, new_sep@);
            }
            keys.insert(li, Key(new_sep));
            let ghost kv1 = keys@.map_values(|q: Key| q@);
            proof {
                assert(kv1 =~= kvr.insert(li as int, new_sep@));
                assert forall|m: int| 0 <= m < kv1.len() implies key_ok(#[trigger] kv1[m]) by {
                    if m < li {
                        assert(kv1[m] == kv0[m]);
                    } else if m > li {
                        assert(kv1[m] == kvr[m - 1] && kvr[m - 1] == kv0[m]);
                    }
                }
            }
            let ghost lv1 = pairs_view(lpairs@);
            let ghost rv1 = pairs_view(rpairs@);
            match self.write_leaf(l_off, lpairs, l_is_root, l_parent) {
                Ok(_) => (),
                Err(e) => {
                    return Err(e);
                },
            }
            match self.write_leaf(r_off, rpairs, r_is_root, r_parent) {
                Ok(_) => (),
                Err(e) => {
                    return Err(e);
                },
            }
            let n2 = Node::new(NodeType::Internal(children, keys), p_root, p_parent);
            proof {
                assert(n2@.is_root == pm.is_root && n2@.parent == pm.parent);
                assert(n2@.wf());
                lemma_wf_encodes(n2@);
            }
            let pg = match Page::try_from(&n2) {
                Ok(p) => p,
                Err(_) => {
                    proof {
                        assert(false);
                    }
                    return Err(Error::CorruptTree);
                },
            };
            let ghost s_pre = self@;
            self.write_page(parent_off, pg);
            proof {
                assert(spec_decode(self@[parent_off as int]) == Ok::<NodeModel, Error>(n2@));
                assert forall|i: int| 0 <= i < self@.len() implies page_bytes_wf(
                    #[trigger] self@[i],
                ) by {
                    if i != parent_off as int {
                        assert(self@[i] == s_pre[i]);
                    }
                }
                assert(leaf_pairs_of(self@[l_off as int]) == lv1);
                assert(leaf_pairs_of(self@[r_off as int]) == rv1);
                assert(leaf_pairs_of(old(self)@[l_off as int]) == lv0);
                assert(leaf_pairs_of(old(self)@[r_off as int]) == rv0);
                assert(leaf_pairs_of(self@[l_off as int]) + leaf_pairs_of(self@[r_off as int])
                    == leaf_pairs_of(old(self)@[l_off as int]) + leaf_pairs_of(
                    old(self)@[r_off as int],
                ));
            }
            Ok(())
    }

    /// Merges the right of two neighbouring leaves into the left, dropping
    /// the separator and the right child pointer from the parent, releasing
    /// the emptied page, and collapsing a root left with a single child: the
    /// surviving leaf holds exactly the pairs of both.
    #[verifier::rlimit(100)]
    fn merge_leaves(
        &mut self,
        parent_off: usize,
        l_off: usize,
        r_off: usize,
        li: usize,
        children: Vec<Offset>,
        keys: Vec<Key>,
        p_root: bool,
        p_parent: Option<Offset>,
        lpairs: Vec<KeyValuePair>,
        l_is_root: bool,
        l_parent: Option<Offset>,
        rpairs: Vec<KeyValuePair>,
    ) -> (r: Result<(), Error>)
        requires
            old(self).wf(),
            parent_off < old(self)@.len(),
            l_off < old(self)@.len(),
            r_off < old(self)@.len(),
            l_off != r_off,
            l_off != parent_off,
            r_off != parent_off,
            spec_decode(old(self)@[parent_off as int]) == Ok::<NodeModel, Error>(
                crate::codec::internal_model(children@, keys@, p_root, p_parent),
            ),
            spec_decode(old(self)@[l_off as int]) == Ok::<NodeModel, Error>(
                crate::codec::leaf_model(lpairs@, l_is_root, l_parent),
            ),
            leaf_pairs_of(old(self)@[r_off as int]) == pairs_view(rpairs@),
            li < keys@.len(),
            li + 1 < children@.len(),
        ensures
            final(self).wf(),
            final(self)@.len() == old(self)@.len(),
            r matches Err(e) ==> e == Error::CorruptTree || e == Error::IOError,
            r matches Ok(_) ==> leaf_pairs_of(final(self)@[l_off as int]) == pairs_view(lpairs@)
                + pairs_view(rpairs@),
    {
        let mut keys = keys;
        let mut children = children;
        let mut lpairs = lpairs;
        let ghost pm = crate::codec::internal_model(children@, keys@, p_root, p_parent);
        let ghost kv0 = keys@.map_values(|q: Key| q@);
        let ghost lv0 = pairs_view(lpairs@);
        let ghost rv0 = pairs_view(rpairs@);
        let ri = li + 1;
        proof {
            assert(page_bytes_wf(self@[parent_off as int]));
            assert(page_bytes_wf(self@[l_off as int]));
            assert(page_bytes_wf(self@[r_off as int]));
            assert(pm.wf());
            assert(keys_sorted(kv0));
            assert(pairs_sorted(lv0) && pairs_sorted(rv0));
            let rm0 = spec_decode(self@[r_off as int])->Ok_0;
            match rm0.node_type {
                NodeTypeModel::Leaf { pairs } => {
                    assert(pairs == rv0);
                },
                NodeTypeModel::Internal { .. } => {
                    assert(rv0 =~= Seq::<(Seq<u8>, Seq<u8>)>::empty());
                },
            }
            assert(lv0.len() <= MAX_LEAF_PAIRS && rv0.len() <= MAX_LEAF_PAIRS);
        }
        if lpairs.len() + rpairs.len() > MAX_LEAF_PAIRS {
            return Err(Error::CorruptTree);
        }
        if lpairs.len() > 0 && rpairs.len() > 0 {
            if !key_less(&lpairs[lpairs.len() - 1].key, &rpairs[0].key) {
                return Err(Error::CorruptTree);
            }
        }
        let mut rp = rpairs;
        lpairs.append(&mut rp);
        proof {
            assert(pairs_view(lpairs@) =~= lv0 + rv0);
            lemma_sorted_concat_pairs(lv0, rv0);
        }
        let ghost lv1m = pairs_view(lpairs@);
        match self.write_leaf(l_off, lpairs, l_is_root, l_parent) {
            Ok(_) => (),
            Err(e) => {
                return Err(e);
            },
        }
        self.release_page(r_off);
        if li >= keys.len() {
            return Err(Error::CorruptTree);
        }
        keys.remove(li);
        children.remove(ri);
        proof {
            let kvr2 = keys@.map_values(|q: Key| q@);
            assert(kvr2 =~= kv0.remove(li as int));
            lemma_sorted_remove_keys(kv0, li as int);
            assert forall|m: int| 0 <= m < kvr2.len() implies key_ok(#[trigger] kvr2[m]) by {
                let m0 = if m < li { m } else { m + 1 };
                assert(kvr2[m] == kv0[m0]);
            }
        }
        if p_root && children.len() == 1 {
            // the root has a single child left: that child becomes the root
            let only = children[0].0;
            if only >= self.pages.len() as u64 {
                return Err(Error::IOError);
            }
            let ghost s_pre_c = self@;
            self.set_node_parent(only as usize, true, None);
            self.root = only as usize;
            self.release_page(parent_off);
            proof {
                if only as int == l_off as int {
                    let mb = spec_decode(s_pre_c[l_off as int])->Ok_0;
                    let ma = spec_decode(self@[l_off as int])->Ok_0;
                    assert(ma.node_type == mb.node_type);
                } else {
                    assert(self@[l_off as int] == s_pre_c[l_off as int]);
                }
                assert(leaf_pairs_of(self@[l_off as int]) == lv1m);
                assert(leaf_pairs_of(old(self)@[l_off as int]) == lv0);
                assert(leaf_pairs_of(old(self)@[r_off as int]) == rv0);
                assert(leaf_pairs_of(self@[l_off as int]) == leaf_pairs_of(
                    old(self)@[l_off as int],
                ) + leaf_pairs_of(old(self)@[r_off as int]));
            }
            return Ok(());
        }
        let n2 = Node::new(NodeType::Internal(children, keys), p_root, p_parent);
        proof {
            assert(n2@.is_root == pm.is_root && n2@.parent == pm.parent);
            assert(n2@.wf());
            lemma_wf_encodes(n2@);
        }
        let pg = match Page::try_from(&n2) {
            Ok(p) => p,
            Err(_) => {
                proof {
                    assert(false);
                }
                return Err(Error::CorruptTree);
            },
        };
        let ghost s_pre = self@;
        self.write_page(parent_off, pg);
        proof {
            assert(spec_decode(self@[parent_off as int]) == Ok::<NodeModel, Error>(n2@));
            assert forall|i: int| 0 <= i < self@.len() implies page_bytes_wf(#[trigger] self@[i])
                by {
                if i != parent_off as int {
                    assert(self@[i] == s_pre[i]);
                }
            }
            assert(leaf_pairs_of(self@[l_off as int]) == lv1m);
            assert(leaf_pairs_of(old(self)@[l_off as int]) == lv0);
            assert(leaf_pairs_of(old(self)@[r_off as int]) == rv0);
            assert(leaf_pairs_of(self@[l_off as int]) == leaf_pairs_of(old(self)@[l_off as int])
                + leaf_pairs_of(old(self)@[r_off as int]));
        }
        Ok(())
    }

    /// Rebalances the underfull leaf at `leaf_off` through its parent at
    /// `parent_off`: borrows one pair from the neighbouring sibling when the
    /// sibling holds more than the minimum (updating the separator in the
    /// parent), and otherwise merges the two leaves, dropping one separator
    /// and one child pointer from the parent and releasing the emptied page;
    /// a root left with a single child is collapsed into that child. Order
    /// violations that only corruption could produce are reported as
    /// `CorruptTree` rather than written back.
    #[verifier::rlimit(100)]
    #[verifier::loop_isolation(false)]
    fn rebalance_leaf(&mut self, parent_off: usize, leaf_off: usize) -> (r: Result<(), Error>)
        requires
            old(self).wf(),
            parent_off < old(self)@.len(),
            leaf_off < old(self)@.len(),
        ensures
            final(self).wf(),
            r matches Err(e) ==> e == Error::CorruptTree || e == Error::IOError,
            r matches Ok(_) ==> final(self)@ == old(self)@ || (exists|lo: int, ro: int|
                #![trigger leaf_pairs_of(final(self)@[lo]), leaf_pairs_of(final(self)@[ro])]
                0 <= lo < old(self)@.len() && 0 <= ro < old(self)@.len() && (
                // a borrow moves one pair between the two leaves
                leaf_pairs_of(final(self)@[lo]) + leaf_pairs_of(final(self)@[ro])
                    == leaf_pairs_of(old(self)@[lo]) + leaf_pairs_of(old(self)@[ro])
                // a merge gathers both leaves' pairs into the survivor
                || leaf_pairs_of(final(self)@[lo]) == leaf_pairs_of(old(self)@[lo])
                    + leaf_pairs_of(old(self)@[ro]))),
    {
        proof {
            assert(page_bytes_wf(self@[parent_off as int]));
            assert(self@[parent_off as int] == self.pages@[parent_off as int]@);
        }
        let pnode = match Node::try_from(&self.pages[parent_off]) {
            Ok(n) => n,
            Err(_) => {
                return Err(Error::CorruptTree);
            },
        };
        let ghost pm = spec_decode(self@[parent_off as int])->Ok_0;
        let p_root = pnode.is_root;
        let p_parent = pnode.parent_offset;
        let (mut children, mut keys) = match pnode.node_type {
            NodeType::Internal(c, ks) => (c, ks),
            NodeType::Leaf(_) => {
                return Err(Error::CorruptTree);
            },
        };
        let ghost kv0 = keys@.map_values(|q: Key| q@);
        let ghost cv0 = children@.map_values(|c: Offset| c@);
        proof {
            assert(pm.wf());
            assert(keys_sorted(kv0));
            assert(cv0.len() == kv0.len() + 1);
        }
        let pos = match Self::find_child_pos(&children, leaf_off as u64) {
            Some(p) => p,
            None => {
                return Err(Error::CorruptTree);
            },
        };
        if children.len() < 2 {
            return Ok(());
        }
        let li: usize = if pos > 0 {
            pos - 1
        } else {
            0
        };
        let ri = li + 1;
        let l_off64 = children[li].0;
        let r_off64 = children[ri].0;
        if l_off64 >= self.pages.len() as u64 || r_off64 >= self.pages.len() as u64 {
            return Err(Error::IOError);
        }
        let l_off = l_off64 as usize;
        let r_off = r_off64 as usize;
        if l_off == r_off || l_off == parent_off || r_off == parent_off {
            return Err(Error::CorruptTree);
        }
        proof {
            assert(page_bytes_wf(self@[l_off as int]));
            assert(page_bytes_wf(self@[r_off as int]));
            assert(self@[l_off as int] == self.pages@[l_off as int]@);
            assert(self@[r_off as int] == self.pages@[r_off as int]@);
        }
        let lnode = match Node::try_from(&self.pages[l_off]) {
            Ok(n) => n,
            Err(_) => {
                return Err(Error::CorruptTree);
            },
        };
        let ghost lm = spec_decode(self@[l_off as int])->Ok_0;
        let l_is_root = lnode.is_root;
        let l_parent = lnode.parent_offset;
        let mut lpairs = match lnode.node_type {
            NodeType::Leaf(p) => p,
            NodeType::Internal(..) => {
                return Err(Error::CorruptTree);
            },
        };
        let rnode = match Node::try_from(&self.pages[r_off]) {
            Ok(n) => n,
            Err(_) => {
                return Err(Error::CorruptTree);
            },
        };
        let ghost rm = spec_decode(self@[r_off as int])->Ok_0;
        let r_is_root = rnode.is_root;
        let r_parent = rnode.parent_offset;
        let mut rpairs = match rnode.node_type {
            NodeType::Leaf(p) => p,
            NodeType::Internal(..) => {
                return Err(Error::CorruptTree);
            },
        };
        let ghost lv0 = pairs_view(lpairs@);
        let ghost rv0 = pairs_view(rpairs@);
        proof {
            assert(lm.wf());
            assert(rm.wf());
            assert(pairs_sorted(lv0) && pairs_sorted(rv0));
            assert(lv0.len() <= MAX_LEAF_PAIRS && rv0.len() <= MAX_LEAF_PAIRS);
        }
        let sib_len = if pos == li {
            rpairs.len()
        } else {
            lpairs.len()
        };
        if sib_len > MIN_LEAF_PAIRS {
            match self.borrow_leaves(
                parent_off,
                l_off,
                r_off,
                li,
                pos == li,
                children,
                keys,
                p_root,
                p_parent,
                lpairs,
                l_is_root,
                l_parent,
                rpairs,
                r_is_root,
                r_parent,
            ) {
                Ok(_) => {
                    proof {
                        assert(leaf_pairs_of(self@[l_off as int]) + leaf_pairs_of(
                            self@[r_off as int],
                        ) == leaf_pairs_of(old(self)@[l_off as int]) + leaf_pairs_of(
                            old(self)@[r_off as int],
                        ));
                    }
                    Ok(())
                },
                Err(e) => Err(e),
            }
        } else {
            match self.merge_leaves(
                parent_off,
                l_off,
                r_off,
                li,
                children,
                keys,
                p_root,
                p_parent,
                lpairs,
                l_is_root,
                l_parent,
                rpairs,
            ) {
                Ok(_) => {
                    proof {
                        assert(leaf_pairs_of(self@[l_off as int]) == leaf_pairs_of(
                            old(self)@[l_off as int],
                        ) + leaf_pairs_of(old(self)@[r_off as int]));
                        assert(leaf_pairs_of(self@[r_off as int]) == leaf_pairs_of(
                            self@[r_off as int],
                        ));
                    }
                    Ok(())
                },
                Err(e) => Err(e),
            }
        }
    }

    /// Deletes `key` from the tree: reports `NotFound` (leaving the tree
    /// unchanged) exactly when a search would not find the key, removes the
    /// pair otherwise, and rebalances the leaf through its parent when it
    /// falls below the minimum occupancy.
    #[verifier::rlimit(100)]
    pub fn delete(&mut self, key: &Vec<u8>) -> (r: Result<(), Error>)
        requires
            old(self).wf(),
        ensures
            final(self).wf(),
            ({
                let sr = spec_search(
                    old(self)@,
                    old(self).spec_root(),
                    key@,
                    old(self)@.len() as nat,
                );
                match r {
                    Ok(_) => sr matches Ok(Some(_)),
                    Err(e) => if e == Error::NotFound {
                        sr == Ok::<Option<Seq<u8>>, Error>(None::<Seq<u8>>) && final(self)@ == old(
                            self,
                        )@
                    } else {
                        (sr == Err::<Option<Seq<u8>>, Error>(e) && final(self)@ == old(self)@) || ((
                        e == Error::CorruptTree || e == Error::IOError) && sr matches Ok(Some(_)))
                    },
                }
            }),
            ({
                let tl = spec_target_leaf(
                    old(self)@,
                    old(self).spec_root(),
                    key@,
                    old(self)@.len() as nat,
                );
                (tl matches Ok(lo)) && (spec_lookup(leaf_pairs_of(old(self)@[tl->Ok_0]), key@)
                    is Some) && (tl->Ok_0 == old(self).spec_root() || leaf_pairs_of(
                    old(self)@[tl->Ok_0],
                ).len() > MIN_LEAF_PAIRS) ==> ({
                    let p0 = leaf_pairs_of(old(self)@[tl->Ok_0]);
                    let p1 = leaf_pairs_of(final(self)@[tl->Ok_0]);
                    &&& r == Ok::<(), Error>(())
                    &&& final(self)@.len() == old(self)@.len()
                    &&& final(self).spec_root() == old(self).spec_root()
                    &&& (forall|i: int|
                        0 <= i < old(self)@.len() && i != tl->Ok_0 ==> final(self)@[i] == old(
                            self,
                        )@[i])
                    &&& spec_lookup(p1, key@) is None
                    &&& (forall|k2: Seq<u8>|
                        k2 != key@ ==> spec_lookup(p1, k2) == spec_lookup(p0, k2))
                    &&& p1.len() == p0.len() - 1
                })
            }),
    {
        let mut path: Vec<usize> = Vec::new();
        let root = self.root;
        let fuel = self.pages.len();
        let leaf_off = match self.find_leaf(root, key, fuel, &mut path) {
            Ok(l) => l,
            Err(e) => {
                return Err(e);
            },
        };
        proof {
            assert(page_bytes_wf(self@[leaf_off as int]));
            assert(self@[leaf_off as int] == self.pages@[leaf_off as int]@);
        }
        let node = match Node::try_from(&self.pages[leaf_off]) {
            Ok(n) => n,
            Err(_) => {
                return Err(Error::CorruptTree);
            },
        };
        let ghost m0 = spec_decode(self@[leaf_off as int])->Ok_0;
        let l_root = node.is_root;
        let l_parent = node.parent_offset;
        let mut pairs = match node.node_type {
            NodeType::Leaf(p) => p,
            NodeType::Internal(..) => {
                return Err(Error::CorruptTree);
            },
        };
        let ghost before_pairs = pairs_view(pairs@);
        proof {
            assert(m0.wf());
            assert(pairs_sorted(before_pairs));
            assert(before_pairs.len() <= MAX_LEAF_PAIRS);
        }
        let removed = leaf_remove(&mut pairs, key);
        if !removed {
            return Err(Error::NotFound);
        }
        let ghost after_pairs = pairs_view(pairs@);
        proof {
            assert forall|i: int|
                0 <= i < after_pairs.len() implies key_ok((#[trigger] after_pairs[i]).0)
                    && value_ok(after_pairs[i].1) by {
                assert(before_pairs.contains(after_pairs[i]));
                let j = choose|j: int|
                    0 <= j < before_pairs.len() && before_pairs[j] == after_pairs[i];
                assert(key_ok(before_pairs[j].0) && value_ok(before_pairs[j].1));
            }
        }
        let short = pairs.len() < MIN_LEAF_PAIRS;
        match self.write_leaf(leaf_off, pairs, l_root, l_parent) {
            Ok(_) => (),
            Err(e) => {
                return Err(e);
            },
        }
        if path.len() == 0 || !short {
            return Ok(());
        }
        let parent_off = path[path.len() - 1];
        match self.rebalance_leaf(parent_off, leaf_off) {
            Ok(_) => Ok(()),
            Err(e) => Err(e),
        }
    }
}

} // verus!
