//! The node codec: the bidirectional mapping between a `Page` and a `Node`.
//!
//! The on-disk layout per page is: the node-type tag byte, the root flag
//! byte, the parent offset (meaningful only for non-root nodes), then the
//! type-specific body. An internal body is a child count followed by that
//! many child offsets and one fewer fixed-width key slots; a leaf body is a
//! pair count followed by that many fixed-width key/value slot pairs. Slots
//! are zero-padded; the decoder trims leading and trailing zero bytes, so a
//! key or value with a zero byte at either end cannot be represented
//! faithfully (an explicit, documented trade-off of fixed-width slots).

use vstd::prelude::*;

use crate::error::Error;
use crate::node::{is_utf8, is_valid_utf8, utf8_step, Key, KeyValuePair, Node, NodeModel,
    NodeType, NodeTypeModel, Offset, MAX_INTERNAL_CHILDREN, MAX_LEAF_PAIRS, zero_clean};
use crate::page::{be_value, lemma_be_value_agree, lemma_be_value_bound, lemma_pow256_vals, Page,
    IS_ROOT_OFFSET, INTERNAL_NODE_HEADER_SIZE, INTERNAL_NODE_NUM_CHILDREN_OFFSET,
    INTERNAL_NODE_NUM_CHILDREN_SIZE, KEY_SIZE, LEAF_NODE_HEADER_SIZE, LEAF_NODE_NUM_PAIRS_OFFSET,
    LEAF_NODE_NUM_PAIRS_SIZE, NODE_TYPE_OFFSET, PAGE_SIZE, PARENT_POINTER_OFFSET,
    PARENT_POINTER_SIZE, PTR_SIZE, VALUE_SIZE};

verus! {

/// The tag byte marking an internal node's page.
pub const INTERNAL_NODE_TAG: u8 = 0;

/// The tag byte marking a leaf node's page.
pub const LEAF_NODE_TAG: u8 = 1;

/// `n` zero bytes.
pub open spec fn zero_seq(n: int) -> Seq<u8> {
    Seq::new(n as nat, |i: int| 0u8)
}

/// Drops every leading zero byte.
pub open spec fn trim_leading(s: Seq<u8>) -> Seq<u8>
    decreases s.len(),
{
    if s.len() > 0 && s[0] == 0 {
        trim_leading(s.drop_first())
    } else {
        s
    }
}

/// Drops every trailing zero byte.
pub open spec fn trim_trailing(s: Seq<u8>) -> Seq<u8>
    decreases s.len(),
{
    if s.len() > 0 && s[s.len() - 1] == 0 {
        trim_trailing(s.drop_last())
    } else {
        s
    }
}

/// The decoder's slot policy: leading and trailing zero padding removed.
pub open spec fn spec_trim(s: Seq<u8>) -> Seq<u8> {
    trim_trailing(trim_leading(s))
}

proof fn lemma_trim_leading_zeros(m: int)
    requires
        m >= 0,
    ensures
        trim_leading(zero_seq(m)) == Seq::<u8>::empty(),
    decreases m,
{
    if m == 0 {
        assert(zero_seq(0) =~= Seq::<u8>::empty());
    } else {
        assert(zero_seq(m).drop_first() =~= zero_seq(m - 1));
        lemma_trim_leading_zeros(m - 1);
    }
}

proof fn lemma_trim_trailing_pad(k: Seq<u8>, m: int)
    requires
        m >= 0,
        k.len() == 0 || k[k.len() - 1] != 0,
    ensures
        trim_trailing(k + zero_seq(m)) == k,
    decreases m,
{
    if m == 0 {
        assert(k + zero_seq(0) =~= k);
    } else {
        let s = k + zero_seq(m);
        assert(s[s.len() - 1] == zero_seq(m)[m - 1]);
        assert(s.drop_last() =~= k + zero_seq(m - 1));
        lemma_trim_trailing_pad(k, m - 1);
    }
}

/// A zero-clean byte sequence survives zero padding and the trim unchanged.
pub proof fn lemma_trim_padded(k: Seq<u8>, m: int)
    requires
        m >= 0,
        zero_clean(k),
    ensures
        spec_trim(k + zero_seq(m)) == k,
{
    if k.len() == 0 {
        assert(k + zero_seq(m) =~= zero_seq(m));
        lemma_trim_leading_zeros(m);
        assert(k =~= Seq::<u8>::empty());
    } else {
        assert((k + zero_seq(m))[0] == k[0]);
        assert(trim_leading(k + zero_seq(m)) == k + zero_seq(m));
        lemma_trim_trailing_pad(k, m);
    }
}

proof fn lemma_utf8_zeros(m: int)
    requires
        m >= 0,
    ensures
        is_utf8(zero_seq(m)),
    decreases m,
{
    if m > 0 {
        assert(utf8_step(zero_seq(m)) == 1);
        assert(zero_seq(m).skip(1) =~= zero_seq(m - 1));
        lemma_utf8_zeros(m - 1);
    }
}

/// A well-formed UTF-8 field stays well-formed once zero padding follows it.
pub proof fn lemma_utf8_padded(k: Seq<u8>, m: int)
    requires
        m >= 0,
        is_utf8(k),
    ensures
        is_utf8(k + zero_seq(m)),
{
    lemma_utf8_zeros(m);
    crate::node::lemma_utf8_concat(k, zero_seq(m));
}

/// Removes leading and trailing zero padding from a decoded slot.
pub fn trim_zeros(v: Vec<u8>) -> (r: Vec<u8>)
    ensures
        r@ == spec_trim(v@),
{
    let mut v = v;
    let ghost orig = v@;
    while v.len() > 0 && v[0] == 0
        invariant
            trim_leading(orig) == trim_leading(v@),
        decreases v@.len(),
    {
        let ghost before = v@;
        v.remove(0);
        proof {
            assert(v@ =~= before.drop_first());
        }
    }
    let ghost led = v@;
    assert(trim_leading(orig) == led);
    while v.len() > 0 && v[v.len() - 1] == 0
        invariant
            trim_trailing(led) == trim_trailing(v@),
        decreases v@.len(),
    {
        let ghost before = v@;
        v.pop();
        proof {
            assert(v@ =~= before.drop_last());
        }
    }
    v
}

/// Whether an internal body of `n` children (and `n - 1` keys) fits a page.
pub open spec fn internal_fits(n: int) -> bool {
    n == 0 || INTERNAL_NODE_HEADER_SIZE as int + n * PTR_SIZE as int + (n - 1) * KEY_SIZE as int
        <= PAGE_SIZE as int
}

/// Whether a leaf body of `n` pairs fits a page.
pub open spec fn leaf_fits(n: int) -> bool {
    LEAF_NODE_HEADER_SIZE as int + n * (KEY_SIZE + VALUE_SIZE) as int <= PAGE_SIZE as int
}

/// Where an internal node's key slots begin, after `n` child offsets.
pub open spec fn keys_start(n: int) -> int {
    INTERNAL_NODE_HEADER_SIZE as int + n * PTR_SIZE as int
}

/// Where the key slot of leaf pair `i` begins.
pub open spec fn pair_key_start(i: int) -> int {
    LEAF_NODE_HEADER_SIZE as int + i * (KEY_SIZE + VALUE_SIZE) as int
}

/// The raw bytes of key slot `i` of an internal body of `n` children.
pub open spec fn internal_key_slot(s: Seq<u8>, n: int, i: int) -> Seq<u8> {
    s.subrange(
        keys_start(n) + i * KEY_SIZE as int,
        keys_start(n) + i * KEY_SIZE as int + KEY_SIZE as int,
    )
}

/// The raw bytes of the key slot of leaf pair `i`.
pub open spec fn leaf_key_slot(s: Seq<u8>, i: int) -> Seq<u8> {
    s.subrange(pair_key_start(i), pair_key_start(i) + KEY_SIZE as int)
}

/// The raw bytes of the value slot of leaf pair `i`.
pub open spec fn leaf_value_slot(s: Seq<u8>, i: int) -> Seq<u8> {
    s.subrange(
        pair_key_start(i) + KEY_SIZE as int,
        pair_key_start(i) + KEY_SIZE as int + VALUE_SIZE as int,
    )
}

/// Whether every key slot of an internal body of `n` children is valid
/// UTF-8 (zero padding included; the zero byte is valid UTF-8).
pub open spec fn internal_slots_utf8(s: Seq<u8>, n: int) -> bool {
    forall|i: int| 0 <= i < n - 1 ==> is_utf8(#[trigger] internal_key_slot(s, n, i))
}

/// Whether every key and value slot of a leaf body of `n` pairs is valid
/// UTF-8.
pub open spec fn leaf_slots_utf8(s: Seq<u8>, n: int) -> bool {
    forall|i: int|
        #![trigger leaf_key_slot(s, i)]
        #![trigger leaf_value_slot(s, i)]
        0 <= i < n ==> is_utf8(leaf_key_slot(s, i)) && is_utf8(leaf_value_slot(s, i))
}

/// The bit-exact on-disk layout of an encoded node: the tag and root flag
/// bytes, the parent field (zero when the node is a root), the count field,
/// each child offset big-endian in place, each key/value slot holding its
/// field followed by zero padding, and every byte past the body zero. Two
/// equal nodes therefore encode to bit-identical pages.
pub open spec fn encoded_bytes_exact(s: Seq<u8>, m: NodeModel) -> bool {
    &&& s.len() == PAGE_SIZE
    &&& s[IS_ROOT_OFFSET as int] == (if m.is_root {
        1u8
    } else {
        0u8
    })
    &&& (m.is_root ==> forall|b: int|
        PARENT_POINTER_OFFSET <= b < PARENT_POINTER_OFFSET + PARENT_POINTER_SIZE ==> s[b] == 0u8)
    &&& (!m.is_root ==> (m.parent matches Some(p) && be_value(
        s,
        PARENT_POINTER_OFFSET as int,
        PARENT_POINTER_SIZE as int,
    ) == p))
    &&& match m.node_type {
        NodeTypeModel::Internal { children, keys } => {
            let c = children.len() as int;
            &&& s[NODE_TYPE_OFFSET as int] == INTERNAL_NODE_TAG
            &&& be_value(
                s,
                INTERNAL_NODE_NUM_CHILDREN_OFFSET as int,
                INTERNAL_NODE_NUM_CHILDREN_SIZE as int,
            ) == c
            &&& (forall|i: int|
                0 <= i < c ==> be_value(
                    s,
                    INTERNAL_NODE_HEADER_SIZE as int + i * PTR_SIZE as int,
                    PTR_SIZE as int,
                ) == #[trigger] children[i])
            &&& (forall|i: int|
                0 <= i < keys.len() ==> #[trigger] internal_key_slot(s, c, i) == keys[i]
                    + zero_seq(KEY_SIZE - keys[i].len()))
            &&& (forall|b: int|
                keys_start(c) + keys.len() * KEY_SIZE as int <= b < PAGE_SIZE ==> s[b] == 0u8)
        },
        NodeTypeModel::Leaf { pairs } => {
            &&& s[NODE_TYPE_OFFSET as int] == LEAF_NODE_TAG
            &&& be_value(
                s,
                LEAF_NODE_NUM_PAIRS_OFFSET as int,
                LEAF_NODE_NUM_PAIRS_SIZE as int,
            ) == pairs.len()
            &&& (forall|i: int|
                0 <= i < pairs.len() ==> #[trigger] leaf_key_slot(s, i) == pairs[i].0 + zero_seq(
                    KEY_SIZE - pairs[i].0.len(),
                ))
            &&& (forall|i: int|
                0 <= i < pairs.len() ==> #[trigger] leaf_value_slot(s, i) == pairs[i].1
                    + zero_seq(VALUE_SIZE - pairs[i].1.len()))
            &&& (forall|b: int|
                pair_key_start(pairs.len() as int) <= b < PAGE_SIZE ==> s[b] == 0u8)
        },
    }
}

/// What decoding the page bytes `s` yields: the node model, or the exact
/// error. This is the specification the executable decoder is proved
/// against, and the one the encoder's round-trip guarantee speaks of. A
/// slot that is not valid UTF-8 is a malformed field: `EncodingError`.
pub open spec fn spec_decode(s: Seq<u8>) -> Result<NodeModel, Error> {
    let tag = s[NODE_TYPE_OFFSET as int];
    let is_root = s[IS_ROOT_OFFSET as int] == 1u8;
    let parent = if is_root {
        None
    } else {
        Some(be_value(s, PARENT_POINTER_OFFSET as int, PARENT_POINTER_SIZE as int) as u64)
    };
    if tag == INTERNAL_NODE_TAG {
        let n = be_value(
            s,
            INTERNAL_NODE_NUM_CHILDREN_OFFSET as int,
            INTERNAL_NODE_NUM_CHILDREN_SIZE as int,
        );
        if !internal_fits(n) {
            Err(Error::OutOfBounds)
        } else if !internal_slots_utf8(s, n) {
            Err(Error::EncodingError)
        } else {
            Ok(
                NodeModel {
                    node_type: NodeTypeModel::Internal {
                        children: Seq::new(
                            n as nat,
                            |i: int|
                                be_value(
                                    s,
                                    INTERNAL_NODE_HEADER_SIZE as int + i * PTR_SIZE as int,
                                    PTR_SIZE as int,
                                ) as u64,
                        ),
                        keys: Seq::new(
                            if n == 0 {
                                0
                            } else {
                                (n - 1) as nat
                            },
                            |i: int|
                                spec_trim(
                                    s.subrange(
                                        keys_start(n) + i * KEY_SIZE as int,
                                        keys_start(n) + i * KEY_SIZE as int + KEY_SIZE as int,
                                    ),
                                ),
                        ),
                    },
                    is_root,
                    parent,
                },
            )
        }
    } else if tag == LEAF_NODE_TAG {
        let n = be_value(s, LEAF_NODE_NUM_PAIRS_OFFSET as int, LEAF_NODE_NUM_PAIRS_SIZE as int);
        if !leaf_fits(n) {
            Err(Error::OutOfBounds)
        } else if !leaf_slots_utf8(s, n) {
            Err(Error::EncodingError)
        } else {
            Ok(
                NodeModel {
                    node_type: NodeTypeModel::Leaf {
                        pairs: Seq::new(
                            n as nat,
                            |i: int|
                                (
                                    spec_trim(
                                        s.subrange(
                                            pair_key_start(i),
                                            pair_key_start(i) + KEY_SIZE as int,
                                        ),
                                    ),
                                    spec_trim(
                                        s.subrange(
                                            pair_key_start(i) + KEY_SIZE as int,
                                            pair_key_start(i) + KEY_SIZE as int
                                                + VALUE_SIZE as int,
                                        ),
                                    ),
                                ),
                        ),
                    },
                    is_root,
                    parent,
                },
            )
        }
    } else {
        Err(Error::InvalidNodeType)
    }
}

impl Node {
    /// Decodes a page into a node, with the exact outcome `spec_decode`
    /// gives: `InvalidNodeType` on an unrecognized tag byte, `OutOfBounds`
    /// when the declared body overruns the page, otherwise the node.
    #[verifier::rlimit(100)]
    #[verifier::loop_isolation(false)]
    pub fn try_from(page: &Page) -> (r: Result<Node, Error>)
        requires
            page.wf(),
        ensures
            match r {
                Ok(node) => spec_decode(page@) == Ok::<NodeModel, Error>(node@),
                Err(e) => spec_decode(page@) == Err::<NodeModel, Error>(e),
            },
    {
        let tag = page.get_byte(NODE_TYPE_OFFSET);
        if tag != INTERNAL_NODE_TAG && tag != LEAF_NODE_TAG {
            return Err(Error::InvalidNodeType);
        }
        let is_root = page.get_byte(IS_ROOT_OFFSET) == 1;
        let parent_offset: Option<Offset> = if is_root {
            None
        } else {
            match page.get_value_from_offset(PARENT_POINTER_OFFSET, PARENT_POINTER_SIZE) {
                Ok(v) => {
                    proof {
                        lemma_be_value_bound(
                            page@,
                            PARENT_POINTER_OFFSET as int,
                            PARENT_POINTER_SIZE as int,
                        );
                        lemma_pow256_vals();
                    }
                    Some(Offset(v))
                },
                Err(e) => {
                    return Err(e);
                },
            }
        };
        if tag == INTERNAL_NODE_TAG {
            let n_val = match page.get_value_from_offset(
                INTERNAL_NODE_NUM_CHILDREN_OFFSET,
                INTERNAL_NODE_NUM_CHILDREN_SIZE,
            ) {
                Ok(v) => v,
                Err(e) => {
                    return Err(e);
                },
            };
            let ghost n_spec = be_value(
                page@,
                INTERNAL_NODE_NUM_CHILDREN_OFFSET as int,
                INTERNAL_NODE_NUM_CHILDREN_SIZE as int,
            );
            if n_val > MAX_INTERNAL_CHILDREN as u64 {
                assert(!internal_fits(n_spec));
                return Err(Error::OutOfBounds);
            }
            assert(internal_fits(n_spec));
            let n = n_val as usize;
            let mut children: Vec<Offset> = Vec::new();
            let mut i: usize = 0;
            while i < n
                invariant
                    page.wf(),
                    n <= MAX_INTERNAL_CHILDREN,
                    i <= n,
                    children@.len() == i,
                    forall|j: int|
                        0 <= j < i ==> (#[trigger] children@[j])@ == be_value(
                            page@,
                            INTERNAL_NODE_HEADER_SIZE as int + j * PTR_SIZE as int,
                            PTR_SIZE as int,
                        ) as u64,
                decreases n - i,
            {
                let off = INTERNAL_NODE_HEADER_SIZE + i * PTR_SIZE;
                let v = match page.get_value_from_offset(off, PTR_SIZE) {
                    Ok(v) => v,
                    Err(_) => {
                        return Err(Error::OutOfBounds);
                    },
                };
                proof {
                    lemma_be_value_bound(page@, off as int, PTR_SIZE as int);
                    lemma_pow256_vals();
                }
                children.push(Offset(v));
                i = i + 1;
            }
            let nk = if n == 0 {
                0
            } else {
                n - 1
            };
            let mut keys: Vec<Key> = Vec::new();
            i = 0;
            while i < nk
                invariant
                    page.wf(),
                    n <= MAX_INTERNAL_CHILDREN,
                    nk == if n == 0 { 0int } else { n - 1 },
                    i <= nk,
                    keys@.len() == i,
                    forall|j: int|
                        0 <= j < i ==> (#[trigger] keys@[j])@ == spec_trim(
                            page@.subrange(
                                keys_start(n as int) + j * KEY_SIZE as int,
                                keys_start(n as int) + j * KEY_SIZE as int + KEY_SIZE as int,
                            ),
                        ),
                    forall|j: int|
                        0 <= j < i ==> is_utf8(#[trigger] internal_key_slot(page@, n as int, j)),
                decreases nk - i,
            {
                let off = INTERNAL_NODE_HEADER_SIZE + n * PTR_SIZE + i * KEY_SIZE;
                let raw = match page.get_ptr_from_offset(off, KEY_SIZE) {
                    Ok(v) => v,
                    Err(_) => {
                        return Err(Error::OutOfBounds);
                    },
                };
                if !is_valid_utf8(&raw) {
                    proof {
                        assert(internal_key_slot(page@, n_spec, i as int) == raw@);
                        assert(!internal_slots_utf8(page@, n_spec));
                    }
                    return Err(Error::EncodingError);
                }
                proof {
                    assert(internal_key_slot(page@, n_spec, i as int) == raw@);
                    assert(is_utf8(internal_key_slot(page@, n as int, i as int)));
                }
                let k = trim_zeros(raw);
                keys.push(Key(k));
                i = i + 1;
            }
            let node = Node::new(NodeType::Internal(children, keys), is_root, parent_offset);
            proof {
                assert(internal_slots_utf8(page@, n_spec));
                let m = spec_decode(page@)->Ok_0;
                match m.node_type {
                    NodeTypeModel::Internal { children: sc, keys: sk } => {
                        assert(children@.map_values(|c: Offset| c@) =~= sc);
                        assert(keys@.map_values(|k: Key| k@) =~= sk);
                    },
                    NodeTypeModel::Leaf { .. } => {
                        assert(false);
                    },
                }
            }
            Ok(node)
        } else {
            let n_val = match page.get_value_from_offset(
                LEAF_NODE_NUM_PAIRS_OFFSET,
                LEAF_NODE_NUM_PAIRS_SIZE,
            ) {
                Ok(v) => v,
                Err(e) => {
                    return Err(e);
                },
            };
            let ghost n_spec = be_value(
                page@,
                LEAF_NODE_NUM_PAIRS_OFFSET as int,
                LEAF_NODE_NUM_PAIRS_SIZE as int,
            );
            if n_val > MAX_LEAF_PAIRS as u64 {
                assert(!leaf_fits(n_spec));
                return Err(Error::OutOfBounds);
            }
            assert(leaf_fits(n_spec));
            let n = n_val as usize;
            let mut pairs: Vec<KeyValuePair> = Vec::new();
            let mut i: usize = 0;
            while i < n
                invariant
                    page.wf(),
                    n <= MAX_LEAF_PAIRS,
                    i <= n,
                    pairs@.len() == i,
                    forall|j: int|
                        0 <= j < i ==> (#[trigger] pairs@[j])@ == (
                            spec_trim(
                                page@.subrange(
                                    pair_key_start(j),
                                    pair_key_start(j) + KEY_SIZE as int,
                                ),
                            ),
                            spec_trim(
                                page@.subrange(
                                    pair_key_start(j) + KEY_SIZE as int,
                                    pair_key_start(j) + KEY_SIZE as int + VALUE_SIZE as int,
                                ),
                            ),
                        ),
                    forall|j: int|
                        #![trigger leaf_key_slot(page@, j)]
                        #![trigger leaf_value_slot(page@, j)]
                        0 <= j < i ==> is_utf8(leaf_key_slot(page@, j)) && is_utf8(
                            leaf_value_slot(page@, j),
                        ),
                decreases n - i,
            {
                proof {
                    assert(i < n && n <= MAX_LEAF_PAIRS);
                    assert(i * (KEY_SIZE + VALUE_SIZE) <= MAX_LEAF_PAIRS * (KEY_SIZE
                        + VALUE_SIZE));
                }
                let off = LEAF_NODE_HEADER_SIZE + i * (KEY_SIZE + VALUE_SIZE);
                let raw_key = match page.get_ptr_from_offset(off, KEY_SIZE) {
                    Ok(v) => v,
                    Err(_) => {
                        return Err(Error::OutOfBounds);
                    },
                };
                if !is_valid_utf8(&raw_key) {
                    proof {
                        assert(leaf_key_slot(page@, i as int) == raw_key@);
                        assert(!leaf_slots_utf8(page@, n_spec));
                    }
                    return Err(Error::EncodingError);
                }
                let raw_value = match page.get_ptr_from_offset(off + KEY_SIZE, VALUE_SIZE) {
                    Ok(v) => v,
                    Err(_) => {
                        return Err(Error::OutOfBounds);
                    },
                };
                if !is_valid_utf8(&raw_value) {
                    proof {
                        assert(leaf_value_slot(page@, i as int) == raw_value@);
                        assert(!leaf_slots_utf8(page@, n_spec));
                    }
                    return Err(Error::EncodingError);
                }
                proof {
                    assert(leaf_key_slot(page@, i as int) == raw_key@);
                    assert(leaf_value_slot(page@, i as int) == raw_value@);
                    assert(is_utf8(leaf_key_slot(page@, i as int)));
                    assert(is_utf8(leaf_value_slot(page@, i as int)));
                }
                let key = trim_zeros(raw_key);
                let value = trim_zeros(raw_value);
                pairs.push(KeyValuePair::new(key, value));
                i = i + 1;
            }
            let node = Node::new(NodeType::Leaf(pairs), is_root, parent_offset);
            proof {
                assert(leaf_slots_utf8(page@, n_spec));
                let m = spec_decode(page@)->Ok_0;
                match m.node_type {
                    NodeTypeModel::Leaf { pairs: sp } => {
                        assert(pairs@.map_values(|p: KeyValuePair| p@) =~= sp);
                    },
                    NodeTypeModel::Internal { .. } => {
                        assert(false);
                    },
                }
            }
            Ok(node)
        }
    }
}


/// The error the encoder reports for an internal node's keys, scanned in
/// order: `KeyTooLong` at the first key over `KEY_SIZE`.
pub open spec fn internal_keys_err(ks: Seq<Seq<u8>>) -> Option<Error>
    decreases ks.len(),
{
    if ks.len() == 0 {
        None
    } else if ks[0].len() > KEY_SIZE {
        Some(Error::KeyTooLong)
    } else {
        internal_keys_err(ks.drop_first())
    }
}

/// The error the encoder reports for a leaf's pairs, scanned in order: for
/// the first oversized field, `KeyTooLong` or `ValueTooLong`.
pub open spec fn leaf_pairs_err(ps: Seq<(Seq<u8>, Seq<u8>)>) -> Option<Error>
    decreases ps.len(),
{
    if ps.len() == 0 {
        None
    } else if ps[0].0.len() > KEY_SIZE {
        Some(Error::KeyTooLong)
    } else if ps[0].1.len() > VALUE_SIZE {
        Some(Error::ValueTooLong)
    } else {
        leaf_pairs_err(ps.drop_first())
    }
}

/// Whether an internal body of `c` child offsets and `k` key slots fits.
pub open spec fn internal_write_fits(c: int, k: int) -> bool {
    INTERNAL_NODE_HEADER_SIZE as int + c * PTR_SIZE as int + k * KEY_SIZE as int
        <= PAGE_SIZE as int
}

/// The exact error the encoder reports for a node model, or `None` when the
/// node encodes: `MissingParent` for a non-root without a parent, then
/// `OutOfBounds` when the body cannot fit one page, then the first oversized
/// field.
pub open spec fn spec_encode_err(m: NodeModel) -> Option<Error> {
    if !m.is_root && m.parent is None {
        Some(Error::MissingParent)
    } else {
        match m.node_type {
            NodeTypeModel::Internal { children, keys } => {
                if !internal_write_fits(children.len() as int, keys.len() as int) {
                    Some(Error::OutOfBounds)
                } else {
                    internal_keys_err(keys)
                }
            },
            NodeTypeModel::Leaf { pairs } => {
                if !leaf_fits(pairs.len() as int) {
                    Some(Error::OutOfBounds)
                } else {
                    leaf_pairs_err(pairs)
                }
            },
        }
    }
}

/// The conditions under which an encoded node decodes back to itself: the
/// child/key count relation holds, no key or value carries zero bytes at its
/// ends, and a root carries no parent back-reference.
pub open spec fn rt_clean(m: NodeModel) -> bool {
    (m.is_root ==> m.parent is None) && match m.node_type {
        NodeTypeModel::Internal { children, keys } => children.len() == keys.len() + 1 && (forall|
            i: int,
        |
            0 <= i < keys.len() ==> zero_clean(#[trigger] keys[i]) && is_utf8(keys[i])),
        NodeTypeModel::Leaf { pairs } => forall|i: int|
            0 <= i < pairs.len() ==> zero_clean(#[trigger] pairs[i].0) && is_utf8(pairs[i].0)
                && zero_clean(pairs[i].1) && is_utf8(pairs[i].1),
    }
}

/// The model of an internal node assembled from its parts.
pub open spec fn internal_model(
    children: Seq<Offset>,
    keys: Seq<Key>,
    is_root: bool,
    parent: Option<Offset>,
) -> NodeModel {
    NodeModel {
        node_type: NodeTypeModel::Internal {
            children: children.map_values(|c: Offset| c@),
            keys: keys.map_values(|k: Key| k@),
        },
        is_root,
        parent: match parent {
            Some(o) => Some(o@),
            None => None,
        },
    }
}

/// The model of a leaf node assembled from its parts.
pub open spec fn leaf_model(
    pairs: Seq<KeyValuePair>,
    is_root: bool,
    parent: Option<Offset>,
) -> NodeModel {
    NodeModel {
        node_type: NodeTypeModel::Leaf { pairs: pairs.map_values(|p: KeyValuePair| p@) },
        is_root,
        parent: match parent {
            Some(o) => Some(o@),
            None => None,
        },
    }
}

#[verifier::rlimit(60)]
#[verifier::loop_isolation(false)]
fn encode_internal(
    children: &Vec<Offset>,
    keys: &Vec<Key>,
    is_root: bool,
    parent_offset: Option<Offset>,
) -> (r: Result<Page, Error>)
    requires
        !is_root ==> parent_offset is Some,
    ensures
        ({
            let m = internal_model(children@, keys@, is_root, parent_offset);
            match r {
                Err(e) => spec_encode_err(m) == Some(e),
                Ok(p) => spec_encode_err(m) is None && p.wf() && encoded_bytes_exact(p@, m) && (
                rt_clean(m) ==> spec_decode(p@) == Ok::<NodeModel, Error>(m)),
            }
        }),
{
    let ghost m = internal_model(children@, keys@, is_root, parent_offset);
    let ghost kv = keys@.map_values(|key: Key| key@);
    let c = children.len();
    let k = keys.len();
    if c > 509 || k > 254 {
        return Err(Error::OutOfBounds);
    }
    if INTERNAL_NODE_HEADER_SIZE + c * PTR_SIZE + k * KEY_SIZE > PAGE_SIZE {
        return Err(Error::OutOfBounds);
    }
    let mut i: usize = 0;
    proof {
        assert(kv.skip(0) =~= kv);
    }
    while i < k
        invariant
            i <= k,
            k == keys@.len(),
            kv == keys@.map_values(|key: Key| key@),
            internal_keys_err(kv) == internal_keys_err(kv.skip(i as int)),
            forall|j: int| 0 <= j < i ==> (#[trigger] kv[j]).len() <= KEY_SIZE,
        decreases k - i,
    {
        if keys[i].0.len() > KEY_SIZE {
            proof {
                assert(kv.skip(i as int)[0] == kv[i as int]);
            }
            return Err(Error::KeyTooLong);
        }
        proof {
            assert(kv.skip(i as int)[0] == kv[i as int]);
            assert(kv.skip(i as int).drop_first() =~= kv.skip(i as int + 1));
        }
        i = i + 1;
    }
    proof {
        assert(kv.skip(k as int) =~= Seq::<Seq<u8>>::empty());
        assert(internal_keys_err(kv) is None);
        lemma_pow256_vals();
    }
    let mut page = Page::new();
    page.set_byte(NODE_TYPE_OFFSET, INTERNAL_NODE_TAG);
    page.set_byte(IS_ROOT_OFFSET, if is_root { 1 } else { 0 });
    match parent_offset {
        Some(po) => {
            if !is_root {
                match page.set_value_at_offset(PARENT_POINTER_OFFSET, PARENT_POINTER_SIZE, po.0) {
                    Ok(_) => (),
                    Err(_) => {
                        return Err(Error::OutOfBounds);
                    },
                }
            }
        },
        None => (),
    }
    proof {
        assert(page@[NODE_TYPE_OFFSET as int] == INTERNAL_NODE_TAG);
        assert(page@[IS_ROOT_OFFSET as int] == (if is_root { 1u8 } else { 0u8 }));
        assert(forall|b: int| INTERNAL_NODE_HEADER_SIZE <= b < PAGE_SIZE ==> page@[b] == 0u8);
        assert(is_root ==> forall|b: int|
            PARENT_POINTER_OFFSET <= b < PARENT_POINTER_OFFSET + PARENT_POINTER_SIZE
                ==> page@[b] == 0u8);
    }
    let ghost after_parent = page@;
    match page.set_value_at_offset(
        INTERNAL_NODE_NUM_CHILDREN_OFFSET,
        INTERNAL_NODE_NUM_CHILDREN_SIZE,
        c as u64,
    ) {
        Ok(_) => (),
        Err(_) => {
            return Err(Error::OutOfBounds);
        },
    }
    proof {
        lemma_be_value_agree(
            after_parent,
            page@,
            PARENT_POINTER_OFFSET as int,
            PARENT_POINTER_SIZE as int,
        );
    }
    let mut i: usize = 0;
    while i < c
        invariant
            page.wf(),
            c == children@.len(),
            k == keys@.len(),
            i <= c,
            c <= 509,
            INTERNAL_NODE_HEADER_SIZE + c * PTR_SIZE + k * KEY_SIZE <= PAGE_SIZE,
            page@[NODE_TYPE_OFFSET as int] == INTERNAL_NODE_TAG,
            page@[IS_ROOT_OFFSET as int] == (if is_root { 1u8 } else { 0u8 }),
            is_root ==> forall|b: int|
                PARENT_POINTER_OFFSET <= b < PARENT_POINTER_OFFSET + PARENT_POINTER_SIZE
                    ==> page@[b] == 0u8,
            !is_root ==> (parent_offset matches Some(po) && be_value(
                page@,
                PARENT_POINTER_OFFSET as int,
                PARENT_POINTER_SIZE as int,
            ) == po.0),
            be_value(
                page@,
                INTERNAL_NODE_NUM_CHILDREN_OFFSET as int,
                INTERNAL_NODE_NUM_CHILDREN_SIZE as int,
            ) == c as int,
            forall|j: int|
                0 <= j < i ==> be_value(
                    page@,
                    INTERNAL_NODE_HEADER_SIZE as int + j * PTR_SIZE as int,
                    PTR_SIZE as int,
                ) == (#[trigger] children@[j])@,
            forall|b: int|
                INTERNAL_NODE_HEADER_SIZE + i * PTR_SIZE <= b < PAGE_SIZE ==> page@[b] == 0u8,
        decreases c - i,
    {
        let ghost before = page@;
        proof {
            lemma_pow256_vals();
        }
        match page.set_value_at_offset(INTERNAL_NODE_HEADER_SIZE + i * PTR_SIZE, PTR_SIZE,
            children[i].0) {
            Ok(_) => (),
            Err(_) => {
                return Err(Error::OutOfBounds);
            },
        }
        proof {
            lemma_be_value_agree(
                before,
                page@,
                PARENT_POINTER_OFFSET as int,
                PARENT_POINTER_SIZE as int,
            );
            lemma_be_value_agree(
                before,
                page@,
                INTERNAL_NODE_NUM_CHILDREN_OFFSET as int,
                INTERNAL_NODE_NUM_CHILDREN_SIZE as int,
            );
            assert forall|j: int| 0 <= j < i implies be_value(
                page@,
                INTERNAL_NODE_HEADER_SIZE as int + j * PTR_SIZE as int,
                PTR_SIZE as int,
            ) == (#[trigger] children@[j])@ by {
                lemma_be_value_agree(
                    before,
                    page@,
                    INTERNAL_NODE_HEADER_SIZE as int + j * PTR_SIZE as int,
                    PTR_SIZE as int,
                );
            }
        }
        i = i + 1;
    }
    let ghost ks0 = keys_start(c as int);
    let mut i: usize = 0;
    while i < k
        invariant
            page.wf(),
            c == children@.len(),
            k == keys@.len(),
            kv == keys@.map_values(|key: Key| key@),
            i <= k,
            c <= 509,
            INTERNAL_NODE_HEADER_SIZE + c * PTR_SIZE + k * KEY_SIZE <= PAGE_SIZE,
            ks0 == keys_start(c as int),
            forall|j: int| 0 <= j < k ==> (#[trigger] kv[j]).len() <= KEY_SIZE,
            page@[NODE_TYPE_OFFSET as int] == INTERNAL_NODE_TAG,
            page@[IS_ROOT_OFFSET as int] == (if is_root { 1u8 } else { 0u8 }),
            is_root ==> forall|b: int|
                PARENT_POINTER_OFFSET <= b < PARENT_POINTER_OFFSET + PARENT_POINTER_SIZE
                    ==> page@[b] == 0u8,
            !is_root ==> (parent_offset matches Some(po) && be_value(
                page@,
                PARENT_POINTER_OFFSET as int,
                PARENT_POINTER_SIZE as int,
            ) == po.0),
            be_value(
                page@,
                INTERNAL_NODE_NUM_CHILDREN_OFFSET as int,
                INTERNAL_NODE_NUM_CHILDREN_SIZE as int,
            ) == c as int,
            forall|j: int|
                0 <= j < c ==> be_value(
                    page@,
                    INTERNAL_NODE_HEADER_SIZE as int + j * PTR_SIZE as int,
                    PTR_SIZE as int,
                ) == (#[trigger] children@[j])@,
            forall|j: int|
                0 <= j < i ==> #[trigger] page@.subrange(
                    ks0 + j * KEY_SIZE as int,
                    ks0 + j * KEY_SIZE as int + KEY_SIZE as int,
                ) == kv[j] + zero_seq(KEY_SIZE - kv[j].len()),
            forall|b: int| ks0 + i * KEY_SIZE <= b < PAGE_SIZE ==> page@[b] == 0u8,
        decreases k - i,
    {
        let off = INTERNAL_NODE_HEADER_SIZE + c * PTR_SIZE + i * KEY_SIZE;
        let ghost before = page@;
        proof {
            assert(kv[i as int] == keys@[i as int]@);
        }
        match page.set_range(off, &keys[i].0) {
            Ok(_) => (),
            Err(_) => {
                return Err(Error::OutOfBounds);
            },
        }
        proof {
            lemma_be_value_agree(
                before,
                page@,
                PARENT_POINTER_OFFSET as int,
                PARENT_POINTER_SIZE as int,
            );
            lemma_be_value_agree(
                before,
                page@,
                INTERNAL_NODE_NUM_CHILDREN_OFFSET as int,
                INTERNAL_NODE_NUM_CHILDREN_SIZE as int,
            );
            assert forall|j: int| 0 <= j < c implies be_value(
                page@,
                INTERNAL_NODE_HEADER_SIZE as int + j * PTR_SIZE as int,
                PTR_SIZE as int,
            ) == (#[trigger] children@[j])@ by {
                lemma_be_value_agree(
                    before,
                    page@,
                    INTERNAL_NODE_HEADER_SIZE as int + j * PTR_SIZE as int,
                    PTR_SIZE as int,
                );
            }
            assert(kv[i as int] == keys@[i as int].0@);
            assert forall|j: int| 0 <= j < i implies #[trigger] page@.subrange(
                ks0 + j * KEY_SIZE as int,
                ks0 + j * KEY_SIZE as int + KEY_SIZE as int,
            ) == kv[j] + zero_seq(KEY_SIZE - kv[j].len()) by {
                assert(page@.subrange(
                    ks0 + j * KEY_SIZE as int,
                    ks0 + j * KEY_SIZE as int + KEY_SIZE as int,
                ) =~= before.subrange(
                    ks0 + j * KEY_SIZE as int,
                    ks0 + j * KEY_SIZE as int + KEY_SIZE as int,
                ));
            }
            assert(page@.subrange(
                ks0 + i as int * KEY_SIZE as int,
                ks0 + i as int * KEY_SIZE as int + KEY_SIZE as int,
            ) =~= kv[i as int] + zero_seq(KEY_SIZE - kv[i as int].len()));
        }
        i = i + 1;
    }
    proof {
        assert(internal_write_fits(c as int, k as int));
        assert(spec_encode_err(m) is None);
        assert forall|j: int| 0 <= j < k implies #[trigger] internal_key_slot(page@, c as int, j)
            == kv[j] + zero_seq(KEY_SIZE - kv[j].len()) by {
            assert(page@.subrange(
                ks0 + j * KEY_SIZE as int,
                ks0 + j * KEY_SIZE as int + KEY_SIZE as int,
            ) == kv[j] + zero_seq(KEY_SIZE - kv[j].len()));
        }
        assert(encoded_bytes_exact(page@, m));
        if rt_clean(m) {
            let s = page@;
            let n = be_value(
                s,
                INTERNAL_NODE_NUM_CHILDREN_OFFSET as int,
                INTERNAL_NODE_NUM_CHILDREN_SIZE as int,
            );
            assert(n == c as int);
            assert(c == k + 1);
            assert(internal_fits(n));
            assert(s[NODE_TYPE_OFFSET as int] == INTERNAL_NODE_TAG);
            assert forall|j: int| 0 <= j < n - 1 implies is_utf8(
                #[trigger] internal_key_slot(s, n, j),
            ) by {
                assert(s.subrange(
                    ks0 + j * KEY_SIZE as int,
                    ks0 + j * KEY_SIZE as int + KEY_SIZE as int,
                ) == kv[j] + zero_seq(KEY_SIZE - kv[j].len()));
                assert(internal_key_slot(s, n, j) == kv[j] + zero_seq(KEY_SIZE - kv[j].len()));
                lemma_utf8_padded(kv[j], KEY_SIZE - kv[j].len());
            }
            assert(internal_slots_utf8(s, n));
            match spec_decode(s) {
                Ok(dm) => {
                    assert(dm.is_root == is_root);
                    assert(dm.parent == m.parent);
                    match dm.node_type {
                        NodeTypeModel::Internal { children: sc, keys: sk } => {
                            assert forall|j: int| 0 <= j < c implies sc[j] == (
                            #[trigger] children@[j])@ by {
                                lemma_pow256_vals();
                                lemma_be_value_bound(
                                    s,
                                    INTERNAL_NODE_HEADER_SIZE as int + j * PTR_SIZE as int,
                                    PTR_SIZE as int,
                                );
                            }
                            assert(sc =~= children@.map_values(|ch: Offset| ch@));
                            assert forall|j: int| 0 <= j < k implies sk[j] == (#[trigger] kv[j])
                                by {
                                let key = kv[j];
                                assert(s.subrange(
                                    ks0 + j * KEY_SIZE as int,
                                    ks0 + j * KEY_SIZE as int + KEY_SIZE as int,
                                ) == key + zero_seq(KEY_SIZE - key.len()));
                                lemma_trim_padded(key, KEY_SIZE - key.len());
                            }
                            assert(sk =~= kv);
                            assert(dm == m);
                        },
                        NodeTypeModel::Leaf { .. } => {
                            assert(false);
                        },
                    }
                },
                Err(_) => {
                    assert(false);
                },
            }
        }
    }
    Ok(page)
}

#[verifier::rlimit(60)]
#[verifier::loop_isolation(false)]
fn encode_leaf(pairs: &Vec<KeyValuePair>, is_root: bool, parent_offset: Option<Offset>) -> (r:
    Result<Page, Error>)
    requires
        !is_root ==> parent_offset is Some,
    ensures
        ({
            let m = leaf_model(pairs@, is_root, parent_offset);
            match r {
                Err(e) => spec_encode_err(m) == Some(e),
                Ok(p) => spec_encode_err(m) is None && p.wf() && encoded_bytes_exact(p@, m) && (
                rt_clean(m) ==> spec_decode(p@) == Ok::<NodeModel, Error>(m)),
            }
        }),
{
    let ghost m = leaf_model(pairs@, is_root, parent_offset);
    let ghost pv = pairs@.map_values(|p: KeyValuePair| p@);
    let n = pairs.len();
    if n > MAX_LEAF_PAIRS {
        return Err(Error::OutOfBounds);
    }
    let mut i: usize = 0;
    proof {
        assert(pv.skip(0) =~= pv);
    }
    while i < n
        invariant
            i <= n,
            leaf_pairs_err(pv) == leaf_pairs_err(pv.skip(i as int)),
            forall|j: int|
                0 <= j < i ==> (#[trigger] pv[j]).0.len() <= KEY_SIZE && pv[j].1.len()
                    <= VALUE_SIZE,
        decreases n - i,
    {
        proof {
            assert(pv.skip(i as int)[0] == pv[i as int]);
            assert(pv[i as int] == pairs@[i as int]@);
        }
        if pairs[i].key.len() > KEY_SIZE {
            return Err(Error::KeyTooLong);
        }
        if pairs[i].value.len() > VALUE_SIZE {
            return Err(Error::ValueTooLong);
        }
        proof {
            assert(pv.skip(i as int).drop_first() =~= pv.skip(i as int + 1));
        }
        i = i + 1;
    }
    proof {
        assert(pv.skip(n as int) =~= Seq::<(Seq<u8>, Seq<u8>)>::empty());
        assert(leaf_pairs_err(pv) is None);
        lemma_pow256_vals();
    }
    let mut page = Page::new();
    page.set_byte(NODE_TYPE_OFFSET, LEAF_NODE_TAG);
    page.set_byte(IS_ROOT_OFFSET, if is_root { 1 } else { 0 });
    match parent_offset {
        Some(po) => {
            if !is_root {
                match page.set_value_at_offset(PARENT_POINTER_OFFSET, PARENT_POINTER_SIZE, po.0) {
                    Ok(_) => (),
                    Err(_) => {
                        return Err(Error::OutOfBounds);
                    },
                }
            }
        },
        None => (),
    }
    proof {
        assert(page@[NODE_TYPE_OFFSET as int] == LEAF_NODE_TAG);
        assert(page@[IS_ROOT_OFFSET as int] == (if is_root { 1u8 } else { 0u8 }));
        assert(forall|b: int| LEAF_NODE_HEADER_SIZE <= b < PAGE_SIZE ==> page@[b] == 0u8);
        assert(is_root ==> forall|b: int|
            PARENT_POINTER_OFFSET <= b < PARENT_POINTER_OFFSET + PARENT_POINTER_SIZE
                ==> page@[b] == 0u8);
    }
    let ghost after_parent = page@;
    match page.set_value_at_offset(
        LEAF_NODE_NUM_PAIRS_OFFSET,
        LEAF_NODE_NUM_PAIRS_SIZE,
        n as u64,
    ) {
        Ok(_) => (),
        Err(_) => {
            return Err(Error::OutOfBounds);
        },
    }
    proof {
        lemma_be_value_agree(
            after_parent,
            page@,
            PARENT_POINTER_OFFSET as int,
            PARENT_POINTER_SIZE as int,
        );
    }
    let mut i: usize = 0;
    while i < n
        invariant
            page.wf(),
            n == pairs@.len(),
            pv == pairs@.map_values(|p: KeyValuePair| p@),
            i <= n,
            n <= MAX_LEAF_PAIRS,
            forall|j: int|
                0 <= j < n ==> (#[trigger] pv[j]).0.len() <= KEY_SIZE && pv[j].1.len()
                    <= VALUE_SIZE,
            page@[NODE_TYPE_OFFSET as int] == LEAF_NODE_TAG,
            page@[IS_ROOT_OFFSET as int] == (if is_root { 1u8 } else { 0u8 }),
            is_root ==> forall|b: int|
                PARENT_POINTER_OFFSET <= b < PARENT_POINTER_OFFSET + PARENT_POINTER_SIZE
                    ==> page@[b] == 0u8,
            !is_root ==> (parent_offset matches Some(po) && be_value(
                page@,
                PARENT_POINTER_OFFSET as int,
                PARENT_POINTER_SIZE as int,
            ) == po.0),
            be_value(
                page@,
                LEAF_NODE_NUM_PAIRS_OFFSET as int,
                LEAF_NODE_NUM_PAIRS_SIZE as int,
            ) == n as int,
            forall|j: int|
                0 <= j < i ==> #[trigger] page@.subrange(
                    pair_key_start(j),
                    pair_key_start(j) + KEY_SIZE as int,
                ) == pv[j].0 + zero_seq(KEY_SIZE - pv[j].0.len()),
            forall|j: int|
                0 <= j < i ==> #[trigger] page@.subrange(
                    pair_key_start(j) + KEY_SIZE as int,
                    pair_key_start(j) + KEY_SIZE as int + VALUE_SIZE as int,
                ) == pv[j].1 + zero_seq(VALUE_SIZE - pv[j].1.len()),
            forall|b: int|
                pair_key_start(i as int) <= b < PAGE_SIZE ==> page@[b] == 0u8,
        decreases n - i,
    {
        let off = LEAF_NODE_HEADER_SIZE + i * (KEY_SIZE + VALUE_SIZE);
        let ghost before0 = page@;
        proof {
            assert(pv[i as int] == pairs@[i as int]@);
        }
        match page.set_range(off, &pairs[i].key) {
            Ok(_) => (),
            Err(_) => {
                return Err(Error::OutOfBounds);
            },
        }
        let ghost before1 = page@;
        match page.set_range(off + KEY_SIZE, &pairs[i].value) {
            Ok(_) => (),
            Err(_) => {
                return Err(Error::OutOfBounds);
            },
        }
        proof {
            lemma_be_value_agree(
                before0,
                page@,
                PARENT_POINTER_OFFSET as int,
                PARENT_POINTER_SIZE as int,
            );
            lemma_be_value_agree(
                before0,
                page@,
                LEAF_NODE_NUM_PAIRS_OFFSET as int,
                LEAF_NODE_NUM_PAIRS_SIZE as int,
            );
            assert forall|j: int| 0 <= j < i implies #[trigger] page@.subrange(
                pair_key_start(j),
                pair_key_start(j) + KEY_SIZE as int,
            ) == pv[j].0 + zero_seq(KEY_SIZE - pv[j].0.len()) by {
                assert(page@.subrange(pair_key_start(j), pair_key_start(j) + KEY_SIZE as int)
                    =~= before0.subrange(pair_key_start(j), pair_key_start(j) + KEY_SIZE as int));
            }
            assert forall|j: int| 0 <= j < i implies #[trigger] page@.subrange(
                pair_key_start(j) + KEY_SIZE as int,
                pair_key_start(j) + KEY_SIZE as int + VALUE_SIZE as int,
            ) == pv[j].1 + zero_seq(VALUE_SIZE - pv[j].1.len()) by {
                assert(page@.subrange(
                    pair_key_start(j) + KEY_SIZE as int,
                    pair_key_start(j) + KEY_SIZE as int + VALUE_SIZE as int,
                ) =~= before0.subrange(
                    pair_key_start(j) + KEY_SIZE as int,
                    pair_key_start(j) + KEY_SIZE as int + VALUE_SIZE as int,
                ));
            }
            assert(page@.subrange(
                pair_key_start(i as int),
                pair_key_start(i as int) + KEY_SIZE as int,
            ) =~= pv[i as int].0 + zero_seq(KEY_SIZE - pv[i as int].0.len()));
            assert(page@.subrange(
                pair_key_start(i as int) + KEY_SIZE as int,
                pair_key_start(i as int) + KEY_SIZE as int + VALUE_SIZE as int,
            ) =~= pv[i as int].1 + zero_seq(VALUE_SIZE - pv[i as int].1.len()));
        }
        i = i + 1;
    }
    proof {
        assert(leaf_fits(n as int));
        assert(spec_encode_err(m) is None);
        assert forall|j: int| 0 <= j < n implies #[trigger] leaf_key_slot(page@, j) == pv[j].0
            + zero_seq(KEY_SIZE - pv[j].0.len()) by {
            assert(page@.subrange(pair_key_start(j), pair_key_start(j) + KEY_SIZE as int) == pv[
                j].0 + zero_seq(KEY_SIZE - pv[j].0.len()));
        }
        assert forall|j: int| 0 <= j < n implies #[trigger] leaf_value_slot(page@, j) == pv[j].1
            + zero_seq(VALUE_SIZE - pv[j].1.len()) by {
            assert(page@.subrange(
                pair_key_start(j) + KEY_SIZE as int,
                pair_key_start(j) + KEY_SIZE as int + VALUE_SIZE as int,
            ) == pv[j].1 + zero_seq(VALUE_SIZE - pv[j].1.len()));
        }
        assert(encoded_bytes_exact(page@, m));
        if rt_clean(m) {
            let s = page@;
            let cnt = be_value(
                s,
                LEAF_NODE_NUM_PAIRS_OFFSET as int,
                LEAF_NODE_NUM_PAIRS_SIZE as int,
            );
            assert(cnt == n as int);
            assert(s[NODE_TYPE_OFFSET as int] == LEAF_NODE_TAG);
            assert forall|j: int| 0 <= j < n implies is_utf8(#[trigger] leaf_key_slot(s, j))
                && is_utf8(leaf_value_slot(s, j)) by {
                assert(leaf_key_slot(s, j) == pv[j].0 + zero_seq(KEY_SIZE - pv[j].0.len()));
                assert(leaf_value_slot(s, j) == pv[j].1 + zero_seq(VALUE_SIZE - pv[j].1.len()));
                lemma_utf8_padded(pv[j].0, KEY_SIZE - pv[j].0.len());
                lemma_utf8_padded(pv[j].1, VALUE_SIZE - pv[j].1.len());
            }
            assert(leaf_slots_utf8(s, cnt));
            match spec_decode(s) {
                Ok(dm) => {
                    assert(dm.is_root == is_root);
                    assert(dm.parent == m.parent);
                    match dm.node_type {
                        NodeTypeModel::Leaf { pairs: sp } => {
                            assert forall|j: int| 0 <= j < n implies sp[j] == (#[trigger] pv[j])
                                by {
                                let key = pv[j].0;
                                let val = pv[j].1;
                                assert(s.subrange(
                                    pair_key_start(j),
                                    pair_key_start(j) + KEY_SIZE as int,
                                ) == key + zero_seq(KEY_SIZE - key.len()));
                                assert(s.subrange(
                                    pair_key_start(j) + KEY_SIZE as int,
                                    pair_key_start(j) + KEY_SIZE as int + VALUE_SIZE as int,
                                ) == val + zero_seq(VALUE_SIZE - val.len()));
                                lemma_trim_padded(key, KEY_SIZE - key.len());
                                lemma_trim_padded(val, VALUE_SIZE - val.len());
                            }
                            assert(sp =~= pv);
                            assert(dm == m);
                        },
                        NodeTypeModel::Internal { .. } => {
                            assert(false);
                        },
                    }
                },
                Err(_) => {
                    assert(false);
                },
            }
        }
    }
    Ok(page)
}

impl Page {
    /// Encodes a node into a freshly zeroed page: `MissingParent` when a
    /// non-root node carries no parent offset, `OutOfBounds` when the body
    /// cannot fit one page, `KeyTooLong`/`ValueTooLong` at the first
    /// oversized field (never silently truncating). On success, decoding the
    /// produced page yields the node back, whenever the node's counts are
    /// consistent and its fields are zero-clean (`rt_clean`) -- in
    /// particular for every well-formed node.
    pub fn try_from(node: &Node) -> (r: Result<Page, Error>)
        ensures
            match r {
                Err(e) => spec_encode_err(node@) == Some(e),
                Ok(p) => spec_encode_err(node@) is None && p.wf() && encoded_bytes_exact(
                    p@,
                    node@,
                ) && (rt_clean(node@) ==> spec_decode(p@) == Ok::<NodeModel, Error>(node@)),
            },
    {
        if !node.is_root && node.parent_offset.is_none() {
            return Err(Error::MissingParent);
        }
        match &node.node_type {
            NodeType::Internal(children, keys) => {
                let r = encode_internal(children, keys, node.is_root, node.parent_offset);
                proof {
                    assert(internal_model(children@, keys@, node.is_root, node.parent_offset)
                        == node@);
                }
                r
            },
            NodeType::Leaf(pairs) => {
                let r = encode_leaf(pairs, node.is_root, node.parent_offset);
                proof {
                    assert(leaf_model(pairs@, node.is_root, node.parent_offset) == node@);
                }
                r
            },
        }
    }
}

/// Every well-formed node is round-trip clean, so a well-formed node that
/// encodes successfully decodes back to itself: the round-trip law.
pub proof fn lemma_wf_rt_clean(m: NodeModel)
    requires
        m.wf(),
    ensures
        rt_clean(m),
{
}

proof fn lemma_keys_err_none(ks: Seq<Seq<u8>>)
    requires
        forall|i: int| 0 <= i < ks.len() ==> (#[trigger] ks[i]).len() <= KEY_SIZE,
    ensures
        internal_keys_err(ks) is None,
    decreases ks.len(),
{
    if ks.len() > 0 {
        lemma_keys_err_none(ks.drop_first());
    }
}

proof fn lemma_pairs_err_none(ps: Seq<(Seq<u8>, Seq<u8>)>)
    requires
        forall|i: int|
            0 <= i < ps.len() ==> (#[trigger] ps[i]).0.len() <= KEY_SIZE && ps[i].1.len()
                <= VALUE_SIZE,
    ensures
        leaf_pairs_err(ps) is None,
    decreases ps.len(),
{
    if ps.len() > 0 {
        lemma_pairs_err_none(ps.drop_first());
    }
}

/// A well-formed node always encodes, and decodes back to itself.
pub proof fn lemma_wf_encodes(m: NodeModel)
    requires
        m.wf(),
    ensures
        spec_encode_err(m) is None,
        rt_clean(m),
{
    lemma_wf_rt_clean(m);
    match m.node_type {
        NodeTypeModel::Internal { children, keys } => {
            lemma_keys_err_none(keys);
        },
        NodeTypeModel::Leaf { pairs } => {
            lemma_pairs_err_none(pairs);
        },
    }
}

} // verus!
