//! The in-memory representation of one tree level: an internal (routing)
//! node of ordered child offsets and separator keys, or a leaf node of
//! ordered key-value pairs, with root/parent metadata.

use vstd::prelude::*;

use crate::page::{KEY_SIZE, VALUE_SIZE, PAGE_SIZE, PTR_SIZE, INTERNAL_NODE_HEADER_SIZE,
    LEAF_NODE_HEADER_SIZE};

verus! {

/// Most children an internal node's page can hold: the largest `n` with
/// `INTERNAL_NODE_HEADER_SIZE + n * PTR_SIZE + (n - 1) * KEY_SIZE <= PAGE_SIZE`.
pub const MAX_INTERNAL_CHILDREN: usize = 170;

/// Most key-value pairs a leaf node's page can hold: the largest `n` with
/// `LEAF_NODE_HEADER_SIZE + n * (KEY_SIZE + VALUE_SIZE) <= PAGE_SIZE`.
pub const MAX_LEAF_PAIRS: usize = 127;

/// Minimum occupancy of a non-root leaf: half the capacity, rounded up.
pub const MIN_LEAF_PAIRS: usize = 64;

/// An unsigned integer identifying a page's logical position in the backing
/// store; used as child pointers and parent back-references.
#[derive(Clone, Copy, PartialEq, Eq, Structural, Debug)]
pub struct Offset(pub u64);

impl View for Offset {
    type V = u64;

    open spec fn view(&self) -> u64 {
        self.0
    }
}

/// A key: a byte sequence of bounded length, ordered byte-lexicographically.
#[derive(Clone, PartialEq, Eq, Debug)]
pub struct Key(pub Vec<u8>);

impl View for Key {
    type V = Seq<u8>;

    open spec fn view(&self) -> Seq<u8> {
        self.0@
    }
}

/// The leaf payload unit: a key and its value.
#[derive(Clone, PartialEq, Eq, Debug)]
pub struct KeyValuePair {
    pub key: Vec<u8>,
    pub value: Vec<u8>,
}

impl View for KeyValuePair {
    type V = (Seq<u8>, Seq<u8>);

    open spec fn view(&self) -> (Seq<u8>, Seq<u8>) {
        (self.key@, self.value@)
    }
}

impl KeyValuePair {
    pub fn new(key: Vec<u8>, value: Vec<u8>) -> (p: KeyValuePair)
        ensures
            p@ == (key@, value@),
    {
        KeyValuePair { key, value }
    }
}

/// Byte-lexicographic strict order on keys.
pub open spec fn key_lt(a: Seq<u8>, b: Seq<u8>) -> bool
    decreases a.len(),
{
    if b.len() == 0 {
        false
    } else if a.len() == 0 {
        true
    } else if a[0] < b[0] {
        true
    } else if a[0] > b[0] {
        false
    } else {
        key_lt(a.drop_first(), b.drop_first())
    }
}

pub proof fn lemma_key_lt_trans(a: Seq<u8>, b: Seq<u8>, c: Seq<u8>)
    requires
        key_lt(a, b),
        key_lt(b, c),
    ensures
        key_lt(a, c),
    decreases a.len(),
{
    if a.len() > 0 && b.len() > 0 && c.len() > 0 && a[0] == b[0] && b[0] == c[0] {
        lemma_key_lt_trans(a.drop_first(), b.drop_first(), c.drop_first());
    }
}

/// Two keys are equal or strictly ordered one way.
pub proof fn lemma_key_lt_total(a: Seq<u8>, b: Seq<u8>)
    ensures
        key_lt(a, b) || key_lt(b, a) || a == b,
    decreases a.len(),
{
    if a.len() == 0 {
        if b.len() == 0 {
            assert(a =~= b);
        }
    } else if b.len() > 0 && a[0] == b[0] {
        lemma_key_lt_total(a.drop_first(), b.drop_first());
        if !key_lt(a, b) && !key_lt(b, a) {
            assert(a.drop_first() == b.drop_first());
            assert forall|i: int| 1 <= i < a.len() implies a[i] == b[i] by {
                assert(a[i] == a.drop_first()[i - 1]);
                assert(b[i] == b.drop_first()[i - 1]);
            }
            assert(a =~= b);
        }
    }
}

/// A key never orders strictly below itself.
pub proof fn lemma_key_lt_irrefl(a: Seq<u8>)
    ensures
        !key_lt(a, a),
    decreases a.len(),
{
    if a.len() > 0 {
        lemma_key_lt_irrefl(a.drop_first());
    }
}

/// Whether the key suffixes from `i` on order strictly, mirroring `key_lt`.
fn key_lt_from(a: &Vec<u8>, b: &Vec<u8>, i: usize) -> (r: bool)
    requires
        i <= a@.len(),
        i <= b@.len(),
    ensures
        r == key_lt(
            a@.subrange(i as int, a@.len() as int),
            b@.subrange(i as int, b@.len() as int),
        ),
    decreases a@.len() - i,
{
    let ghost sa = a@.subrange(i as int, a@.len() as int);
    let ghost sb = b@.subrange(i as int, b@.len() as int);
    if i == b.len() {
        false
    } else if i == a.len() {
        true
    } else if a[i] < b[i] {
        true
    } else if a[i] > b[i] {
        false
    } else {
        let r = key_lt_from(a, b, i + 1);
        proof {
            assert(sa.drop_first() =~= a@.subrange(i + 1, a@.len() as int));
            assert(sb.drop_first() =~= b@.subrange(i + 1, b@.len() as int));
        }
        r
    }
}

/// Byte-lexicographic strict comparison of two keys.
pub fn key_less(a: &Vec<u8>, b: &Vec<u8>) -> (r: bool)
    ensures
        r == key_lt(a@, b@),
{
    proof {
        assert(a@.subrange(0, a@.len() as int) =~= a@);
        assert(b@.subrange(0, b@.len() as int) =~= b@);
    }
    key_lt_from(a, b, 0)
}

/// Byte equality of two keys.
pub fn key_equal(a: &Vec<u8>, b: &Vec<u8>) -> (r: bool)
    ensures
        r == (a@ == b@),
{
    if a.len() != b.len() {
        return false;
    }
    let mut i: usize = 0;
    while i < a.len()
        invariant
            a@.len() == b@.len(),
            i <= a@.len(),
            forall|j: int| 0 <= j < i ==> a@[j] == b@[j],
        decreases a@.len() - i,
    {
        if a[i] != b[i] {
            return false;
        }
        i = i + 1;
    }
    proof {
        assert(a@ =~= b@);
    }
    true
}

/// Separator keys in strictly ascending order.
pub open spec fn keys_sorted(ks: Seq<Seq<u8>>) -> bool {
    forall|i: int, j: int| 0 <= i < j < ks.len() ==> key_lt(ks[i], ks[j])
}

/// Leaf pairs strictly ascending by key, hence no duplicate keys.
pub open spec fn pairs_sorted(ps: Seq<(Seq<u8>, Seq<u8>)>) -> bool {
    forall|i: int, j: int| 0 <= i < j < ps.len() ==> key_lt(ps[i].0, ps[j].0)
}

/// The value stored for `k`, scanning pairs in order.
pub open spec fn spec_lookup(ps: Seq<(Seq<u8>, Seq<u8>)>, k: Seq<u8>) -> Option<Seq<u8>>
    decreases ps.len(),
{
    if ps.len() == 0 {
        None
    } else if ps[0].0 == k {
        Some(ps[0].1)
    } else {
        spec_lookup(ps.drop_first(), k)
    }
}

/// A byte sequence that survives the codec's zero-padding trim unchanged:
/// empty, or with no zero byte at either end.
pub open spec fn zero_clean(s: Seq<u8>) -> bool {
    s.len() == 0 || (s[0] != 0 && s[s.len() - 1] != 0)
}

/// A key the fixed-width slot encoding can represent faithfully: it fits
/// the slot, survives the zero trim, and is text the decoder accepts.
pub open spec fn key_ok(k: Seq<u8>) -> bool {
    k.len() <= KEY_SIZE && zero_clean(k) && is_utf8(k)
}

/// A value the fixed-width slot encoding can represent faithfully.
pub open spec fn value_ok(v: Seq<u8>) -> bool {
    v.len() <= VALUE_SIZE && zero_clean(v) && is_utf8(v)
}

/// A UTF-8 continuation byte.
pub open spec fn is_cont(b: u8) -> bool {
    0x80 <= b <= 0xBF
}

/// The length of the well-formed UTF-8 character that `s` begins with, or 0
/// when `s` does not begin with one.
pub open spec fn utf8_step(s: Seq<u8>) -> int {
    if s.len() >= 1 && s[0] < 0x80 {
        1
    } else if s.len() >= 2 && 0xC2 <= s[0] <= 0xDF && is_cont(s[1]) {
        2
    } else if s.len() >= 3 && s[0] == 0xE0 && 0xA0 <= s[1] <= 0xBF && is_cont(s[2]) {
        3
    } else if s.len() >= 3 && 0xE1 <= s[0] <= 0xEC && is_cont(s[1]) && is_cont(s[2]) {
        3
    } else if s.len() >= 3 && s[0] == 0xED && 0x80 <= s[1] <= 0x9F && is_cont(s[2]) {
        3
    } else if s.len() >= 3 && 0xEE <= s[0] <= 0xEF && is_cont(s[1]) && is_cont(s[2]) {
        3
    } else if s.len() >= 4 && s[0] == 0xF0 && 0x90 <= s[1] <= 0xBF && is_cont(s[2]) && is_cont(
        s[3],
    ) {
        4
    } else if s.len() >= 4 && 0xF1 <= s[0] <= 0xF3 && is_cont(s[1]) && is_cont(s[2]) && is_cont(
        s[3],
    ) {
        4
    } else if s.len() >= 4 && s[0] == 0xF4 && 0x80 <= s[1] <= 0x8F && is_cont(s[2]) && is_cont(
        s[3],
    ) {
        4
    } else {
        0
    }
}

/// Whether `s` is well-formed UTF-8.
pub open spec fn is_utf8(s: Seq<u8>) -> bool
    decreases s.len(),
{
    s.len() == 0 || (utf8_step(s) > 0 && is_utf8(s.skip(utf8_step(s))))
}

/// Well-formed UTF-8 sequences concatenate to well-formed UTF-8.
pub proof fn lemma_utf8_concat(a: Seq<u8>, b: Seq<u8>)
    requires
        is_utf8(a),
        is_utf8(b),
    ensures
        is_utf8(a + b),
    decreases a.len(),
{
    if a.len() == 0 {
        assert(a + b =~= b);
    } else {
        let l = utf8_step(a);
        assert(forall|t: int| 0 <= t < a.len() ==> (a + b)[t] == a[t]);
        assert(utf8_step(a + b) == l);
        assert((a + b).skip(l) =~= a.skip(l) + b);
        lemma_utf8_concat(a.skip(l), b);
    }
}

/// The mathematical model of a node's payload.
pub ghost enum NodeTypeModel {
    Internal { children: Seq<u64>, keys: Seq<Seq<u8>> },
    Leaf { pairs: Seq<(Seq<u8>, Seq<u8>)> },
}

/// The mathematical model of a node.
pub ghost struct NodeModel {
    pub node_type: NodeTypeModel,
    pub is_root: bool,
    pub parent: Option<u64>,
}

/// The payload of one tree node: routing data or leaf data.
#[derive(PartialEq, Eq, Debug)]
pub enum NodeType {
    /// Ordered child page offsets and the separator keys between them.
    Internal(Vec<Offset>, Vec<Key>),
    /// Ordered key-value pairs.
    Leaf(Vec<KeyValuePair>),
}

impl View for NodeType {
    type V = NodeTypeModel;

    open spec fn view(&self) -> NodeTypeModel {
        match self {
            NodeType::Internal(children, keys) => NodeTypeModel::Internal {
                children: children@.map_values(|c: Offset| c@),
                keys: keys@.map_values(|k: Key| k@),
            },
            NodeType::Leaf(pairs) => NodeTypeModel::Leaf {
                pairs: pairs@.map_values(|p: KeyValuePair| p@),
            },
        }
    }
}

/// One node of the tree, occupying a single page once encoded.
#[derive(PartialEq, Eq, Debug)]
pub struct Node {
    pub node_type: NodeType,
    pub is_root: bool,
    pub parent_offset: Option<Offset>,
}

impl View for Node {
    type V = NodeModel;

    open spec fn view(&self) -> NodeModel {
        NodeModel {
            node_type: self.node_type@,
            is_root: self.is_root,
            parent: match self.parent_offset {
                Some(o) => Some(o@),
                None => None,
            },
        }
    }
}

impl NodeModel {
    /// The node-level invariants: root flag consistent with the parent
    /// back-reference; an internal node has one more child than keys, with
    /// keys strictly ascending; a leaf's pairs are strictly ascending by key
    /// with no duplicates; every field fits its fixed-width slot.
    pub open spec fn wf(self) -> bool {
        (self.is_root <==> self.parent is None) && match self.node_type {
            NodeTypeModel::Internal { children, keys } => {
                &&& children.len() == keys.len() + 1
                &&& children.len() <= MAX_INTERNAL_CHILDREN
                &&& keys_sorted(keys)
                &&& forall|i: int| 0 <= i < keys.len() ==> key_ok(#[trigger] keys[i])
            },
            NodeTypeModel::Leaf { pairs } => {
                &&& pairs.len() <= MAX_LEAF_PAIRS
                &&& pairs_sorted(pairs)
                &&& forall|i: int|
                    0 <= i < pairs.len() ==> key_ok((#[trigger] pairs[i]).0) && value_ok(
                        pairs[i].1,
                    )
            },
        }
    }
}

impl Node {
    /// Assembles a node from its payload and root/parent metadata.
    pub fn new(node_type: NodeType, is_root: bool, parent_offset: Option<Offset>) -> (n: Node)
        ensures
            n.node_type == node_type,
            n.is_root == is_root,
            n.parent_offset == parent_offset,
    {
        Node { node_type, is_root, parent_offset }
    }
}

/// `spec_lookup` finds nothing when no pair carries the key.
pub proof fn lemma_lookup_absent(ps: Seq<(Seq<u8>, Seq<u8>)>, k: Seq<u8>)
    requires
        forall|i: int| 0 <= i < ps.len() ==> (#[trigger] ps[i]).0 != k,
    ensures
        spec_lookup(ps, k) is None,
    decreases ps.len(),
{
    if ps.len() > 0 {
        lemma_lookup_absent(ps.drop_first(), k);
    }
}

/// `spec_lookup` returns the value at the first position carrying the key.
pub proof fn lemma_lookup_present(ps: Seq<(Seq<u8>, Seq<u8>)>, i: int, k: Seq<u8>)
    requires
        0 <= i < ps.len(),
        ps[i].0 == k,
        forall|m: int| 0 <= m < i ==> (#[trigger] ps[m]).0 != k,
    ensures
        spec_lookup(ps, k) == Some(ps[i].1),
    decreases i,
{
    if i > 0 {
        lemma_lookup_present(ps.drop_first(), i - 1, k);
    }
}

pub proof fn lemma_lookup_insert_same(ps: Seq<(Seq<u8>, Seq<u8>)>, i: int, k: Seq<u8>, v: Seq<u8>)
    requires
        0 <= i <= ps.len(),
        forall|m: int| 0 <= m < i ==> (#[trigger] ps[m]).0 != k,
    ensures
        spec_lookup(ps.insert(i, (k, v)), k) == Some(v),
    decreases i,
{
    let q = ps.insert(i, (k, v));
    if i == 0 {
        assert(q[0] == (k, v));
    } else {
        assert(q[0] == ps[0]);
        assert(q.drop_first() =~= ps.drop_first().insert(i - 1, (k, v)));
        lemma_lookup_insert_same(ps.drop_first(), i - 1, k, v);
    }
}

pub proof fn lemma_lookup_insert_other(
    ps: Seq<(Seq<u8>, Seq<u8>)>,
    i: int,
    k: Seq<u8>,
    v: Seq<u8>,
    k2: Seq<u8>,
)
    requires
        0 <= i <= ps.len(),
        k2 != k,
    ensures
        spec_lookup(ps.insert(i, (k, v)), k2) == spec_lookup(ps, k2),
    decreases i,
{
    let q = ps.insert(i, (k, v));
    if i == 0 {
        assert(q[0] == (k, v));
        assert(q.drop_first() =~= ps);
    } else {
        assert(q[0] == ps[0]);
        assert(q.drop_first() =~= ps.drop_first().insert(i - 1, (k, v)));
        if ps[0].0 != k2 {
            lemma_lookup_insert_other(ps.drop_first(), i - 1, k, v, k2);
        }
    }
}

pub proof fn lemma_lookup_update_same(ps: Seq<(Seq<u8>, Seq<u8>)>, j: int, k: Seq<u8>, v: Seq<u8>)
    requires
        0 <= j < ps.len(),
        ps[j].0 == k,
        forall|m: int| 0 <= m < j ==> (#[trigger] ps[m]).0 != k,
    ensures
        spec_lookup(ps.update(j, (k, v)), k) == Some(v),
    decreases j,
{
    let q = ps.update(j, (k, v));
    if j == 0 {
        assert(q[0] == (k, v));
    } else {
        assert(q[0] == ps[0]);
        assert(q.drop_first() =~= ps.drop_first().update(j - 1, (k, v)));
        lemma_lookup_update_same(ps.drop_first(), j - 1, k, v);
    }
}

pub proof fn lemma_lookup_update_other(
    ps: Seq<(Seq<u8>, Seq<u8>)>,
    j: int,
    k: Seq<u8>,
    v: Seq<u8>,
    k2: Seq<u8>,
)
    requires
        0 <= j < ps.len(),
        ps[j].0 == k,
        k2 != k,
    ensures
        spec_lookup(ps.update(j, (k, v)), k2) == spec_lookup(ps, k2),
    decreases j,
{
    let q = ps.update(j, (k, v));
    if j == 0 {
        assert(q[0] == (k, v));
        assert(q.drop_first() =~= ps.drop_first());
    } else {
        assert(q[0] == ps[0]);
        assert(q.drop_first() =~= ps.drop_first().update(j - 1, (k, v)));
        if ps[0].0 != k2 {
            lemma_lookup_update_other(ps.drop_first(), j - 1, k, v, k2);
        }
    }
}

pub proof fn lemma_lookup_remove_other(ps: Seq<(Seq<u8>, Seq<u8>)>, j: int, k2: Seq<u8>)
    requires
        0 <= j < ps.len(),
        ps[j].0 != k2,
    ensures
        spec_lookup(ps.remove(j), k2) == spec_lookup(ps, k2),
    decreases j,
{
    let q = ps.remove(j);
    if j == 0 {
        assert(q =~= ps.drop_first());
    } else {
        assert(q[0] == ps[0]);
        assert(q.drop_first() =~= ps.drop_first().remove(j - 1));
        if ps[0].0 != k2 {
            lemma_lookup_remove_other(ps.drop_first(), j - 1, k2);
        }
    }
}

/// Inserting a key between its neighbours keeps separator keys sorted.
pub proof fn lemma_sorted_insert_keys(ks: Seq<Seq<u8>>, i: int, k: Seq<u8>)
    requires
        keys_sorted(ks),
        0 <= i <= ks.len(),
        forall|m: int| 0 <= m < i ==> key_lt(#[trigger] ks[m], k),
        forall|m: int| i <= m < ks.len() ==> key_lt(k, #[trigger] ks[m]),
    ensures
        keys_sorted(ks.insert(i, k)),
{
    let q = ks.insert(i, k);
    assert forall|p: int, r: int| 0 <= p < r < q.len() implies key_lt(q[p], q[r]) by {
        if p < i && r < i {
            assert(q[p] == ks[p] && q[r] == ks[r]);
        } else if p < i && r == i {
            assert(q[p] == ks[p]);
        } else if p < i && r > i {
            assert(q[p] == ks[p] && q[r] == ks[r - 1]);
        } else if p == i && r > i {
            assert(q[r] == ks[r - 1]);
        } else if p > i && r > i {
            assert(q[p] == ks[p - 1] && q[r] == ks[r - 1]);
        }
    }
}

/// Inserting a pair between its neighbours keeps leaf pairs sorted.
pub proof fn lemma_sorted_insert_pairs(ps: Seq<(Seq<u8>, Seq<u8>)>, i: int, pr: (Seq<u8>, Seq<u8>))
    requires
        pairs_sorted(ps),
        0 <= i <= ps.len(),
        forall|m: int| 0 <= m < i ==> key_lt((#[trigger] ps[m]).0, pr.0),
        forall|m: int| i <= m < ps.len() ==> key_lt(pr.0, (#[trigger] ps[m]).0),
    ensures
        pairs_sorted(ps.insert(i, pr)),
{
    let q = ps.insert(i, pr);
    assert forall|p: int, r: int| 0 <= p < r < q.len() implies key_lt(q[p].0, q[r].0) by {
        if p < i && r < i {
            assert(q[p] == ps[p] && q[r] == ps[r]);
        } else if p < i && r == i {
            assert(q[p] == ps[p]);
        } else if p < i && r > i {
            assert(q[p] == ps[p] && q[r] == ps[r - 1]);
        } else if p == i && r > i {
            assert(q[r] == ps[r - 1]);
        } else if p > i && r > i {
            assert(q[p] == ps[p - 1] && q[r] == ps[r - 1]);
        }
    }
}

/// Removing a pair keeps leaf pairs sorted.
pub proof fn lemma_sorted_remove_pairs(ps: Seq<(Seq<u8>, Seq<u8>)>, j: int)
    requires
        pairs_sorted(ps),
        0 <= j < ps.len(),
    ensures
        pairs_sorted(ps.remove(j)),
{
    let q = ps.remove(j);
    assert forall|p: int, r: int| 0 <= p < r < q.len() implies key_lt(q[p].0, q[r].0) by {
        let p0 = if p < j { p } else { p + 1 };
        let r0 = if r < j { r } else { r + 1 };
        assert(q[p] == ps[p0] && q[r] == ps[r0]);
    }
}

/// A contiguous slice of a sorted pair list stays sorted.
pub proof fn lemma_sorted_subrange_pairs(ps: Seq<(Seq<u8>, Seq<u8>)>, a: int, b: int)
    requires
        pairs_sorted(ps),
        0 <= a <= b <= ps.len(),
    ensures
        pairs_sorted(ps.subrange(a, b)),
{
    let q = ps.subrange(a, b);
    assert forall|p: int, r: int| 0 <= p < r < q.len() implies key_lt(q[p].0, q[r].0) by {
        assert(q[p] == ps[a + p] && q[r] == ps[a + r]);
    }
}

/// Copies a byte vector.
pub fn clone_bytes(v: &Vec<u8>) -> (r: Vec<u8>)
    ensures
        r@ == v@,
{
    let mut out: Vec<u8> = Vec::new();
    let mut i: usize = 0;
    while i < v.len()
        invariant
            i <= v@.len(),
            out@ == v@.subrange(0, i as int),
        decreases v@.len() - i,
    {
        out.push(v[i]);
        proof {
            assert(out@ =~= v@.subrange(0, i + 1));
        }
        i = i + 1;
    }
    proof {
        assert(out@ =~= v@);
    }
    out
}

/// The pair-list view of a leaf's pairs.
pub open spec fn pairs_view(ps: Seq<KeyValuePair>) -> Seq<(Seq<u8>, Seq<u8>)> {
    ps.map_values(|p: KeyValuePair| p@)
}

/// The first position in a sorted pair list whose key is not below `key`.
fn find_slot(pairs: &Vec<KeyValuePair>, key: &Vec<u8>) -> (j: usize)
    ensures
        j <= pairs@.len(),
        forall|m: int| 0 <= m < j ==> key_lt(pairs_view(pairs@)[m].0, key@),
        j < pairs@.len() ==> !key_lt(pairs_view(pairs@)[j as int].0, key@),
{
    let mut j: usize = 0;
    while j < pairs.len()
        invariant
            j <= pairs@.len(),
            forall|m: int| 0 <= m < j ==> key_lt(pairs_view(pairs@)[m].0, key@),
        decreases pairs@.len() - j,
    {
        if !key_less(&pairs[j].key, key) {
            return j;
        }
        j = j + 1;
    }
    j
}

/// Finds the value stored for `key` among a leaf's pairs.
pub fn leaf_lookup(pairs: &Vec<KeyValuePair>, key: &Vec<u8>) -> (r: Option<Vec<u8>>)
    ensures
        match r {
            Some(v) => spec_lookup(pairs_view(pairs@), key@) == Some(v@),
            None => spec_lookup(pairs_view(pairs@), key@) is None,
        },
{
    let ghost pv = pairs_view(pairs@);
    let mut j: usize = 0;
    proof {
        assert(pv.skip(0) =~= pv);
    }
    while j < pairs.len()
        invariant
            j <= pairs@.len(),
            pv == pairs_view(pairs@),
            spec_lookup(pv, key@) == spec_lookup(pv.skip(j as int), key@),
        decreases pairs@.len() - j,
    {
        proof {
            assert(pv.skip(j as int)[0] == pv[j as int]);
            assert(pv.skip(j as int).drop_first() =~= pv.skip(j as int + 1));
        }
        if key_equal(&pairs[j].key, key) {
            return Some(clone_bytes(&pairs[j].value));
        }
        j = j + 1;
    }
    proof {
        assert(pv.skip(pairs@.len() as int) =~= Seq::<(Seq<u8>, Seq<u8>)>::empty());
    }
    None
}

/// Inserts `(key, value)` in sorted position, replacing the value when the
/// key is already present; returns whether a replacement happened. Afterward
/// the pairs hold `value` for `key` and are unchanged for every other key.
pub fn leaf_insert(pairs: &mut Vec<KeyValuePair>, key: &Vec<u8>, value: Vec<u8>) -> (replaced:
    bool)
    requires
        pairs_sorted(pairs_view(old(pairs)@)),
        old(pairs)@.len() < usize::MAX,
    ensures
        ({
            let before = pairs_view(old(pairs)@);
            let after = pairs_view(final(pairs)@);
            &&& pairs_sorted(after)
            &&& spec_lookup(after, key@) == Some(value@)
            &&& (forall|k2: Seq<u8>|
                k2 != key@ ==> spec_lookup(after, k2) == spec_lookup(before, k2))
            &&& after.len() == before.len() + (if spec_lookup(before, key@) is Some {
                0int
            } else {
                1
            })
            &&& (forall|i: int|
                0 <= i < after.len() ==> #[trigger] after[i] == (key@, value@) || before.contains(
                    after[i],
                ))
            &&& replaced == (spec_lookup(before, key@) is Some)
        }),
{
    let ghost before = pairs_view(old(pairs)@);
    let j = find_slot(pairs, key);
    proof {
        lemma_key_lt_irrefl(key@);
        assert forall|m: int| 0 <= m < j implies (#[trigger] before[m]).0 != key@ by {
            if before[m].0 == key@ {
                assert(key_lt(key@, key@));
            }
        }
    }
    if j < pairs.len() && key_equal(&pairs[j].key, key) {
        let pair = KeyValuePair::new(clone_bytes(key), value);
        pairs.remove(j);
        pairs.insert(j, pair);
        proof {
            let after = pairs_view(pairs@);
            assert(after =~= before.update(j as int, (key@, value@)));
            lemma_lookup_present(before, j as int, key@);
            lemma_lookup_update_same(before, j as int, key@, value@);
            assert forall|k2: Seq<u8>| k2 != key@ implies spec_lookup(after, k2) == spec_lookup(
                before,
                k2,
            ) by {
                lemma_lookup_update_other(before, j as int, key@, value@, k2);
            }
            assert forall|p: int, r: int| 0 <= p < r < after.len() implies key_lt(
                after[p].0,
                after[r].0,
            ) by {
                assert(after[p].0 == before[p].0 && after[r].0 == before[r].0);
            }
            assert forall|i: int|
                0 <= i < after.len() implies #[trigger] after[i] == (key@, value@)
                    || before.contains(after[i]) by {
                if i != j {
                    assert(after[i] == before[i]);
                    assert(before.contains(after[i]));
                }
            }
        }
        true
    } else {
        proof {
            lemma_key_lt_total(pairs@[j as int]@.0, key@);
            assert forall|m: int| j <= m < before.len() implies key_lt(
                key@,
                (#[trigger] before[m]).0,
            ) by {
                if m > j {
                    assert(key_lt(before[j as int].0, before[m].0));
                    lemma_key_lt_trans(key@, before[j as int].0, before[m].0);
                }
            }
            assert forall|m: int| 0 <= m < before.len() implies (#[trigger] before[m]).0 != key@
                by {
                if before[m].0 == key@ {
                    assert(key_lt(key@, key@));
                }
            }
            lemma_lookup_absent(before, key@);
        }
        let pair = KeyValuePair::new(clone_bytes(key), value);
        pairs.insert(j, pair);
        proof {
            let after = pairs_view(pairs@);
            assert(after =~= before.insert(j as int, (key@, value@)));
            lemma_lookup_insert_same(before, j as int, key@, value@);
            assert forall|k2: Seq<u8>| k2 != key@ implies spec_lookup(after, k2) == spec_lookup(
                before,
                k2,
            ) by {
                lemma_lookup_insert_other(before, j as int, key@, value@, k2);
            }
            lemma_sorted_insert_pairs(before, j as int, (key@, value@));
            assert forall|i: int|
                0 <= i < after.len() implies #[trigger] after[i] == (key@, value@)
                    || before.contains(after[i]) by {
                if i < j {
                    assert(after[i] == before[i]);
                    assert(before.contains(after[i]));
                } else if i > j {
                    assert(after[i] == before[i - 1]);
                    assert(before.contains(after[i]));
                }
            }
        }
        false
    }
}

/// Removes the pair carrying `key`, if present; returns whether one was
/// removed. Afterward the key is absent and every other key is unchanged.
pub fn leaf_remove(pairs: &mut Vec<KeyValuePair>, key: &Vec<u8>) -> (removed: bool)
    requires
        pairs_sorted(pairs_view(old(pairs)@)),
    ensures
        ({
            let before = pairs_view(old(pairs)@);
            let after = pairs_view(final(pairs)@);
            &&& pairs_sorted(after)
            &&& spec_lookup(after, key@) is None
            &&& (forall|k2: Seq<u8>|
                k2 != key@ ==> spec_lookup(after, k2) == spec_lookup(before, k2))
            &&& after.len() == before.len() - (if spec_lookup(before, key@) is Some {
                1int
            } else {
                0
            })
            &&& (forall|i: int| 0 <= i < after.len() ==> before.contains(#[trigger] after[i]))
            &&& removed == (spec_lookup(before, key@) is Some)
        }),
{
    let ghost before = pairs_view(old(pairs)@);
    let j = find_slot(pairs, key);
    proof {
        lemma_key_lt_irrefl(key@);
        assert forall|m: int| 0 <= m < j implies (#[trigger] before[m]).0 != key@ by {
            if before[m].0 == key@ {
                assert(key_lt(key@, key@));
            }
        }
    }
    if j < pairs.len() && key_equal(&pairs[j].key, key) {
        pairs.remove(j);
        proof {
            let after = pairs_view(pairs@);
            assert(after =~= before.remove(j as int));
            lemma_lookup_present(before, j as int, key@);
            lemma_sorted_remove_pairs(before, j as int);
            assert forall|m: int| 0 <= m < after.len() implies (#[trigger] after[m]).0 != key@ by {
                let m0 = if m < j { m } else { m + 1 };
                assert(after[m] == before[m0]);
                if m0 > j && before[m0].0 == key@ {
                    assert(key_lt(before[j as int].0, before[m0].0));
                    assert(key_lt(key@, key@));
                }
            }
            lemma_lookup_absent(after, key@);
            assert forall|k2: Seq<u8>| k2 != key@ implies spec_lookup(after, k2) == spec_lookup(
                before,
                k2,
            ) by {
                lemma_lookup_remove_other(before, j as int, k2);
            }
            assert forall|i: int| 0 <= i < after.len() implies before.contains(
                #[trigger] after[i],
            ) by {
                let i0 = if i < j { i } else { i + 1 };
                assert(after[i] == before[i0]);
            }
        }
        true
    } else {
        proof {
            lemma_key_lt_total(pairs@[j as int]@.0, key@);
            assert forall|m: int| 0 <= m < before.len() implies (#[trigger] before[m]).0 != key@
                by {
                if m >= j && before[m].0 == key@ {
                    if m > j {
                        assert(key_lt(before[j as int].0, before[m].0));
                        lemma_key_lt_trans(key@, before[j as int].0, before[m].0);
                    }
                    assert(key_lt(key@, key@));
                }
            }
            lemma_lookup_absent(before, key@);
        }
        false
    }
}

/// How internal-node routing picks a child: the first separator strictly
/// greater than the key, or the last child when none is.
pub open spec fn spec_child_index(ks: Seq<Seq<u8>>, k: Seq<u8>) -> int
    decreases ks.len(),
{
    if ks.len() == 0 {
        0
    } else if key_lt(k, ks[0]) {
        0
    } else {
        1 + spec_child_index(ks.drop_first(), k)
    }
}

pub proof fn lemma_child_index_bounds(ks: Seq<Seq<u8>>, k: Seq<u8>)
    ensures
        0 <= spec_child_index(ks, k) <= ks.len(),
    decreases ks.len(),
{
    if ks.len() > 0 && !key_lt(k, ks[0]) {
        lemma_child_index_bounds(ks.drop_first(), k);
    }
}

proof fn lemma_child_index_is_first(ks: Seq<Seq<u8>>, k: Seq<u8>, i: int)
    requires
        0 <= i <= ks.len(),
        forall|m: int| 0 <= m < i ==> !key_lt(k, #[trigger] ks[m]),
        i < ks.len() ==> key_lt(k, ks[i]),
    ensures
        spec_child_index(ks, k) == i,
    decreases i,
{
    if i > 0 {
        assert(!key_lt(k, ks[0]));
        assert forall|m: int| 0 <= m < i - 1 implies !key_lt(k, #[trigger] ks.drop_first()[m])
            by {
            assert(ks.drop_first()[m] == ks[m + 1]);
        }
        lemma_child_index_is_first(ks.drop_first(), k, i - 1);
    }
}

/// Picks the child to descend into: the index of the first separator key
/// strictly greater than `key`, or the last child when there is none.
pub fn child_index(keys: &Vec<Key>, key: &Vec<u8>) -> (i: usize)
    ensures
        i as int == spec_child_index(keys@.map_values(|k: Key| k@), key@),
        i <= keys@.len(),
{
    let ghost ks = keys@.map_values(|k: Key| k@);
    let mut j: usize = 0;
    while j < keys.len()
        invariant
            j <= keys@.len(),
            ks == keys@.map_values(|k: Key| k@),
            forall|m: int| 0 <= m < j ==> !key_lt(key@, #[trigger] ks[m]),
        decreases keys@.len() - j,
    {
        if key_less(key, &keys[j].0) {
            proof {
                lemma_child_index_is_first(ks, key@, j as int);
            }
            return j;
        }
        j = j + 1;
    }
    proof {
        lemma_child_index_is_first(ks, key@, keys@.len() as int);
    }
    j
}

/// A contiguous slice of sorted separator keys stays sorted.
pub proof fn lemma_sorted_subrange_keys(ks: Seq<Seq<u8>>, a: int, b: int)
    requires
        keys_sorted(ks),
        0 <= a <= b <= ks.len(),
    ensures
        keys_sorted(ks.subrange(a, b)),
{
    let q = ks.subrange(a, b);
    assert forall|p: int, r: int| 0 <= p < r < q.len() implies key_lt(q[p], q[r]) by {
        assert(q[p] == ks[a + p] && q[r] == ks[a + r]);
    }
}

/// Looking a key up in concatenated pair lists scans the left part first.
pub proof fn lemma_lookup_concat(a: Seq<(Seq<u8>, Seq<u8>)>, b: Seq<(Seq<u8>, Seq<u8>)>, k: Seq<u8>)
    ensures
        spec_lookup(a + b, k) == (if spec_lookup(a, k) is Some {
            spec_lookup(a, k)
        } else {
            spec_lookup(b, k)
        }),
    decreases a.len(),
{
    if a.len() == 0 {
        assert(a + b =~= b);
    } else {
        assert((a + b)[0] == a[0]);
        assert((a + b).drop_first() =~= a.drop_first() + b);
        lemma_lookup_concat(a.drop_first(), b, k);
    }
}

/// Whether the byte sequence survives the codec's zero-padding trim.
pub fn bytes_clean(v: &Vec<u8>) -> (r: bool)
    ensures
        r == zero_clean(v@),
{
    v.len() == 0 || (v[0] != 0 && v[v.len() - 1] != 0)
}

/// What `spec_child_index` returns: the first separator strictly above `k`.
pub proof fn lemma_child_index_props(ks: Seq<Seq<u8>>, k: Seq<u8>)
    ensures
        0 <= spec_child_index(ks, k) <= ks.len(),
        forall|m: int| 0 <= m < spec_child_index(ks, k) ==> !key_lt(k, #[trigger] ks[m]),
        spec_child_index(ks, k) < ks.len() ==> key_lt(k, ks[spec_child_index(ks, k)]),
    decreases ks.len(),
{
    if ks.len() > 0 && !key_lt(k, ks[0]) {
        lemma_child_index_props(ks.drop_first(), k);
        let i = spec_child_index(ks, k);
        assert forall|m: int| 0 <= m < i implies !key_lt(k, #[trigger] ks[m]) by {
            if m > 0 {
                assert(ks.drop_first()[m - 1] == ks[m]);
            }
        }
        if i < ks.len() {
            assert(ks.drop_first()[i - 1] == ks[i]);
        }
    }
}

/// Removing a separator keeps the remaining keys sorted.
pub proof fn lemma_sorted_remove_keys(ks: Seq<Seq<u8>>, j: int)
    requires
        keys_sorted(ks),
        0 <= j < ks.len(),
    ensures
        keys_sorted(ks.remove(j)),
{
    let q = ks.remove(j);
    assert forall|p: int, r: int| 0 <= p < r < q.len() implies key_lt(q[p], q[r]) by {
        let p0 = if p < j { p } else { p + 1 };
        let r0 = if r < j { r } else { r + 1 };
        assert(q[p] == ks[p0] && q[r] == ks[r0]);
    }
}

/// Two sorted pair lists whose boundary is ordered concatenate sorted.
pub proof fn lemma_sorted_concat_pairs(a: Seq<(Seq<u8>, Seq<u8>)>, b: Seq<(Seq<u8>, Seq<u8>)>)
    requires
        pairs_sorted(a),
        pairs_sorted(b),
        a.len() > 0 && b.len() > 0 ==> key_lt(a[a.len() - 1].0, b[0].0),
    ensures
        pairs_sorted(a + b),
{
    let q = a + b;
    assert forall|p: int, r: int| 0 <= p < r < q.len() implies key_lt(q[p].0, q[r].0) by {
        if r < a.len() {
            assert(q[p] == a[p] && q[r] == a[r]);
        } else if p >= a.len() {
            assert(q[p] == b[p - a.len()] && q[r] == b[r - a.len()]);
        } else {
            assert(q[p] == a[p] && q[r] == b[r - a.len()]);
            if p < a.len() - 1 {
                assert(key_lt(a[p].0, a[a.len() - 1].0));
                lemma_key_lt_trans(a[p].0, a[a.len() - 1].0, b[0].0);
            }
            if r - a.len() > 0 {
                assert(key_lt(b[0].0, b[r - a.len()].0));
                lemma_key_lt_trans(q[p].0, b[0].0, b[r - a.len()].0);
            }
        }
    }
}

/// Split preserves count: dividing a pair list at any index, the two halves
/// together hold exactly the original pairs -- so a split performed after an
/// insert leaves the total across the two leaves at the pre-split count.
pub proof fn lemma_split_preserves_pairs(ps: Seq<(Seq<u8>, Seq<u8>)>, mid: int)
    requires
        0 <= mid <= ps.len(),
    ensures
        ps.subrange(0, mid) + ps.subrange(mid, ps.len() as int) == ps,
        ps.subrange(0, mid).len() + ps.subrange(mid, ps.len() as int).len() == ps.len(),
{
    assert(ps.subrange(0, mid) + ps.subrange(mid, ps.len() as int) =~= ps);
}

/// Merge preserves count: two merged pair lists hold exactly the pairs of
/// both, so a delete-triggered merge leaves the total across surviving
/// nodes at the pre-merge total.
pub proof fn lemma_merge_preserves_pairs(a: Seq<(Seq<u8>, Seq<u8>)>, b: Seq<(Seq<u8>, Seq<u8>)>)
    ensures
        (a + b).len() == a.len() + b.len(),
        forall|i: int| 0 <= i < a.len() ==> (a + b)[i] == a[i],
        forall|i: int| 0 <= i < b.len() ==> (a + b)[a.len() + i] == b[i],
{
}

/// Whether `b` is a UTF-8 continuation byte.
fn cont_byte(b: u8) -> (r: bool)
    ensures
        r == is_cont(b),
{
    0x80 <= b && b <= 0xBF
}

/// Checks that `v` is well-formed UTF-8, mirroring `is_utf8`.
pub fn is_valid_utf8(v: &Vec<u8>) -> (r: bool)
    ensures
        r == is_utf8(v@),
{
    let mut i: usize = 0;
    proof {
        assert(v@.skip(0) =~= v@);
    }
    while i < v.len()
        invariant
            i <= v@.len(),
            is_utf8(v@) == is_utf8(v@.skip(i as int)),
        decreases v@.len() - i,
    {
        let ghost suf = v@.skip(i as int);
        proof {
            assert(forall|t: int| 0 <= t < suf.len() ==> suf[t] == v@[i + t]);
        }
        let b0 = v[i];
        let n = v.len() - i;
        let l: usize = if b0 < 0x80 {
            1
        } else if 0xC2 <= b0 && b0 <= 0xDF {
            if n >= 2 && cont_byte(v[i + 1]) {
                2
            } else {
                0
            }
        } else if b0 == 0xE0 {
            if n >= 3 && 0xA0 <= v[i + 1] && v[i + 1] <= 0xBF && cont_byte(v[i + 2]) {
                3
            } else {
                0
            }
        } else if 0xE1 <= b0 && b0 <= 0xEC {
            if n >= 3 && cont_byte(v[i + 1]) && cont_byte(v[i + 2]) {
                3
            } else {
                0
            }
        } else if b0 == 0xED {
            if n >= 3 && 0x80 <= v[i + 1] && v[i + 1] <= 0x9F && cont_byte(v[i + 2]) {
                3
            } else {
                0
            }
        } else if 0xEE <= b0 && b0 <= 0xEF {
            if n >= 3 && cont_byte(v[i + 1]) && cont_byte(v[i + 2]) {
                3
            } else {
                0
            }
        } else if b0 == 0xF0 {
            if n >= 4 && 0x90 <= v[i + 1] && v[i + 1] <= 0xBF && cont_byte(v[i + 2]) && cont_byte(
                v[i + 3],
            ) {
                4
            } else {
                0
            }
        } else if 0xF1 <= b0 && b0 <= 0xF3 {
            if n >= 4 && cont_byte(v[i + 1]) && cont_byte(v[i + 2]) && cont_byte(v[i + 3]) {
                4
            } else {
                0
            }
        } else if b0 == 0xF4 {
            if n >= 4 && 0x80 <= v[i + 1] && v[i + 1] <= 0x8F && cont_byte(v[i + 2]) && cont_byte(
                v[i + 3],
            ) {
                4
            } else {
                0
            }
        } else {
            0
        };
        if l == 0 {
            proof {
                assert(utf8_step(suf) == 0);
            }
            return false;
        }
        proof {
            assert(utf8_step(suf) == l as int);
            assert(suf.skip(l as int) =~= v@.skip(i as int + l as int));
        }
        i = i + l;
    }
    proof {
        assert(v@.skip(v@.len() as int) =~= Seq::<u8>::empty());
    }
    true
}

} // verus!
