use vstd::prelude::*;
use crate::text::chars_of;
use crate::node::{NodeValue, NodeView, distinct_texts, empty_view, merge_node, merge_view, sticky};

verus! {

/// The key of the synthetic root, whose children are the host names.
pub open spec fn root_key() -> Seq<char> {
    seq!['_', '_', 'R', 'O', 'O', 'T', '_', '_']
}

/// The record stored under `k`, or the empty record when `k` is absent.
pub open spec fn node_of(m: Map<Seq<char>, NodeView>, k: Seq<char>) -> NodeView {
    if m.contains_key(k) {
        m[k]
    } else {
        empty_view()
    }
}

/// One elementary update of the index.
pub enum Op {
    /// Adds a child name to a key's record.
    AddChild(Seq<char>, Seq<char>),
    /// Records a scheme for a key under the sticky-https rule.
    Scheme(Seq<char>, Seq<char>),
    /// Marks a key as an endpoint and records its scheme under the sticky-https rule.
    Endpoint(Seq<char>, Seq<char>),
}

pub open spec fn apply_op(m: Map<Seq<char>, NodeView>, op: Op) -> Map<Seq<char>, NodeView> {
    match op {
        Op::AddChild(k, c) => {
            let n = node_of(m, k);
            m.insert(k, NodeView { children: n.children.insert(c), ..n })
        },
        Op::Scheme(k, s) => {
            let n = node_of(m, k);
            m.insert(k, NodeView { scheme: sticky(n.scheme, s), ..n })
        },
        Op::Endpoint(k, s) => {
            let n = node_of(m, k);
            m.insert(k, NodeView { is_endpoint: true, scheme: sticky(n.scheme, s), ..n })
        },
    }
}

/// The index after applying `ops` in order.
pub open spec fn apply_ops(m: Map<Seq<char>, NodeView>, ops: Seq<Op>) -> Map<Seq<char>, NodeView>
    decreases ops.len(),
{
    if ops.len() == 0 {
        m
    } else {
        apply_op(apply_ops(m, ops.drop_last()), ops.last())
    }
}

pub proof fn lemma_apply_ops_push(m: Map<Seq<char>, NodeView>, ops: Seq<Op>, op: Op)
    ensures
        apply_ops(m, ops.push(op)) == apply_op(apply_ops(m, ops), op),
{
    assert(ops.push(op).drop_last() =~= ops);
}

pub proof fn lemma_apply_ops_concat(m: Map<Seq<char>, NodeView>, a: Seq<Op>, b: Seq<Op>)
    ensures
        apply_ops(m, a + b) == apply_ops(apply_ops(m, a), b),
    decreases b.len(),
{
    if b.len() == 0 {
        assert(a + b =~= a);
    } else {
        assert((a + b).drop_last() =~= a + b.drop_last());
        lemma_apply_ops_concat(m, a, b.drop_last());
    }
}

/// Number of buckets of the key index.
pub const BUCKETS: usize = 4096;

/// The bucket of a key: a polynomial hash of its characters.
pub open spec fn spread(s: Seq<char>) -> int
    decreases s.len(),
{
    if s.len() == 0 {
        0
    } else {
        (spread(s.drop_last()) * 31 + (s.last() as u32) as int) % (BUCKETS as int)
    }
}

/// The bucket of `s`.
fn bucket(s: &str) -> (r: usize)
    ensures
        r == spread(s@),
        r < BUCKETS,
{
    let v = chars_of(s);
    let mut h: u64 = 0;
    let mut i: usize = 0;
    while i < v.len()
        invariant
            i <= v@.len(),
            h < BUCKETS,
            h == spread(v@.subrange(0, i as int)),
        decreases v@.len() - i,
    {
        assert(v@.subrange(0, i + 1).drop_last() =~= v@.subrange(0, i as int));
        h = (h * 31 + (v[i] as u32) as u64) % (BUCKETS as u64);
        i = i + 1;
    }
    assert(v@.subrange(0, v@.len() as int) =~= v@);
    h as usize
}

/// A mutable map from path-key to node record, with unique keys and an index of the
/// positions of the keys by bucket.
pub struct NodeMap {
    keys: Vec<String>,
    nodes: Vec<NodeValue>,
    slots: Vec<Vec<usize>>,
    rank: Ghost<Seq<int>>,
    model: Ghost<Map<Seq<char>, NodeView>>,
}

impl View for NodeMap {
    type V = Map<Seq<char>, NodeView>;

    closed spec fn view(&self) -> Map<Seq<char>, NodeView> {
        self.model@
    }
}

impl NodeMap {
    pub closed spec fn wf(&self) -> bool {
        &&& self.keys@.len() == self.nodes@.len()
        &&& distinct_texts(self.keys@)
        &&& forall|i: int| 0 <= i < self.nodes@.len() ==> #[trigger] self.nodes@[i].wf()
        &&& forall|i: int| 0 <= i < self.keys@.len() ==> self.model@.contains_key(#[trigger] self.keys@[i]@)
        &&& forall|i: int| 0 <= i < self.keys@.len() ==> self.model@[#[trigger] self.keys@[i]@] == self.nodes@[i]@
        &&& forall|k: Seq<char>| #[trigger] self.model@.contains_key(k) ==> exists|i: int| 0 <= i < self.keys@.len() && self.keys@[i]@ == k
        &&& self.indexed()
    }

    spec fn indexed(&self) -> bool {
        &&& self.slots@.len() == BUCKETS
        &&& forall|b: int, j: int|
            0 <= b < self.slots@.len() && 0 <= j < self.slots@[b]@.len() ==> #[trigger] self.slots@[b]@[j]
                < self.keys@.len() && spread(self.keys@[self.slots@[b]@[j] as int]@) == b
        &&& self.rank@.len() == self.keys@.len()
        &&& forall|i: int|
            0 <= i < self.keys@.len() ==> 0 <= #[trigger] self.rank@[i] < self.slots@[spread(self.keys@[i]@)]@.len()
                && self.slots@[spread(self.keys@[i]@)]@[self.rank@[i]] as int == i
    }

    pub fn new() -> (r: NodeMap)
        ensures
            r.wf(),
            r@ == Map::<Seq<char>, NodeView>::empty(),
    {
        let mut slots: Vec<Vec<usize>> = Vec::new();
        let mut b: usize = 0;
        while b < BUCKETS
            invariant
                b <= BUCKETS,
                slots@.len() == b,
                forall|x: int| 0 <= x < b ==> (#[trigger] slots@[x])@.len() == 0,
            decreases BUCKETS - b,
        {
            slots.push(Vec::new());
            b = b + 1;
        }
        NodeMap { keys: Vec::new(), nodes: Vec::new(), slots, rank: Ghost(Seq::empty()), model: Ghost(Map::empty()) }
    }

    /// The key set is finite.
    pub proof fn lemma_finite(&self)
        requires
            self.wf(),
        ensures
            self@.dom().finite(),
    {
        self.lemma_dom_len();
    }

    /// Number of keys held.
    pub fn len(&self) -> (r: usize)
        requires
            self.wf(),
        ensures
            r == self@.dom().len(),
    {
        proof {
            self.lemma_dom_len();
        }
        self.keys.len()
    }

    proof fn lemma_dom_len(&self)
        requires
            self.wf(),
        ensures
            self@.dom().len() == self.keys@.len(),
            self@.dom().finite(),
        decreases self.keys@.len(),
    {
        let ks = self.keys@.map_values(|s: String| s@);
        assert(self@.dom() =~= ks.to_set()) by {
            assert forall|k: Seq<char>| self@.dom().contains(k) implies ks.to_set().contains(k) by {
                let i = choose|i: int| 0 <= i < self.keys@.len() && self.keys@[i]@ == k;
                assert(ks[i] == k);
            }
            assert forall|k: Seq<char>| ks.to_set().contains(k) implies self@.dom().contains(k) by {
                let i = choose|i: int| 0 <= i < ks.len() && ks[i] == k;
                assert(self.model@.contains_key(self.keys@[i]@));
            }
        }
        assert(ks.no_duplicates()) by {
            assert forall|i: int, j: int| 0 <= i < ks.len() && 0 <= j < ks.len() && i != j implies ks[i] != ks[j] by {
                assert(self.keys@[i]@ != self.keys@[j]@);
            }
        }
        ks.unique_seq_to_set();
    }

    /// Position of `key`, if present.
    fn find(&self, key: &str) -> (r: Option<usize>)
        requires
            self.wf(),
        ensures
            match r {
                Some(i) => i < self.keys@.len() && self.keys@[i as int]@ == key@,
                None => !self@.contains_key(key@),
            },
    {
        let b = bucket(key);
        let wanted = key.to_owned();
        let row = &self.slots[b];
        let mut j: usize = 0;
        while j < row.len()
            invariant
                self.wf(),
                wanted@ == key@,
                b == spread(key@),
                b < BUCKETS,
                row@ == self.slots@[b as int]@,
                j <= row@.len(),
                forall|x: int| 0 <= x < j ==> self.keys@[#[trigger] row@[x] as int]@ != key@,
            decreases row@.len() - j,
        {
            let i = row[j];
            assert(self.slots@[b as int]@[j as int] < self.keys@.len());
            if self.keys[i] == wanted {
                return Some(i);
            }
            j = j + 1;
        }
        proof {
            if self@.contains_key(key@) {
                let i = choose|i: int| 0 <= i < self.keys@.len() && self.keys@[i]@ == key@;
                let x = self.rank@[i];
                assert(self.keys@[row@[x] as int]@ != key@);
            }
        }
        None
    }

    /// The record stored under `key`, if any.
    pub fn get(&self, key: &str) -> (r: Option<&NodeValue>)
        requires
            self.wf(),
        ensures
            match r {
                Some(v) => self@.contains_key(key@) && v@ == self@[key@] && v.wf(),
                None => !self@.contains_key(key@),
            },
    {
        match self.find(key) {
            Some(i) => Some(&self.nodes[i]),
            None => None,
        }
    }

    /// Position of `key`, inserting an empty record when it is absent.
    fn slot(&mut self, key: &str) -> (r: usize)
        requires
            old(self).wf(),
        ensures
            final(self).wf(),
            r < final(self).keys@.len(),
            final(self).keys@[r as int]@ == key@,
            final(self)@ == old(self)@.insert(key@, node_of(old(self)@, key@)),
    {
        match self.find(key) {
            Some(i) => {
                assert(self@.insert(key@, node_of(self@, key@)) =~= self@);
                i
            },
            None => {
                let ghost pre = *self;
                let b = bucket(key);
                let n = self.keys.len();
                self.keys.push(key.to_owned());
                self.nodes.push(NodeValue::new());
                self.model = Ghost(self.model@.insert(key@, empty_view()));
                self.slots[b].push(n);
                self.rank = Ghost(self.rank@.push(pre.slots@[b as int]@.len() as int));
                proof {
                    assert forall|c: int, j: int|
                        0 <= c < self.slots@.len() && 0 <= j < self.slots@[c]@.len() implies #[trigger] self.slots@[c]@[j]
                            < self.keys@.len() && spread(self.keys@[self.slots@[c]@[j] as int]@) == c by {
                        if c == b && j == pre.slots@[c]@.len() {
                        } else {
                            assert(self.slots@[c]@[j] == pre.slots@[c]@[j]);
                            assert(self.keys@[pre.slots@[c]@[j] as int] == pre.keys@[pre.slots@[c]@[j] as int]);
                        }
                    }
                    assert forall|i: int| 0 <= i < self.keys@.len() implies 0 <= #[trigger] self.rank@[i] < self.slots@[spread(self.keys@[i]@)]@.len()
                        && self.slots@[spread(self.keys@[i]@)]@[self.rank@[i]] as int == i by {
                        if i == n {
                            assert(self.slots@[b as int]@[pre.slots@[b as int]@.len() as int] == n);
                        } else {
                            assert(self.keys@[i] == pre.keys@[i]);
                            assert(self.rank@[i] == pre.rank@[i]);
                            let c = spread(pre.keys@[i]@);
                            assert(self.slots@[c]@[pre.rank@[i]] == pre.slots@[c]@[pre.rank@[i]]);
                        }
                    }
                }
                assert forall|k: Seq<char>| #[trigger] self.model@.contains_key(k) implies exists|i: int| 0 <= i < self.keys@.len() && self.keys@[i]@ == k by {
                    if k == key@ {
                        assert(self.keys@[n as int]@ == k);
                    } else {
                        assert(pre.model@.contains_key(k));
                        let i = choose|i: int| 0 <= i < pre.keys@.len() && pre.keys@[i]@ == k;
                        assert(self.keys@[i] == pre.keys@[i]);
                    }
                }
                assert forall|i: int| 0 <= i < self.keys@.len() implies self.model@[#[trigger] self.keys@[i]@] == self.nodes@[i]@ by {
                    if i < n {
                        assert(self.keys@[i] == pre.keys@[i]);
                        assert(pre.model@.contains_key(pre.keys@[i]@));
                    }
                }
                assert(forall|i: int| 0 <= i < self.nodes@.len() ==> #[trigger] self.nodes@[i].wf());
                n
            },
        }
    }

    /// Replaces the record at a position with one of the same key.
    fn store_at(&mut self, i: usize, v: NodeValue)
        requires
            old(self).wf(),
            i < old(self).keys@.len(),
            v.wf(),
        ensures
            final(self).wf(),
            final(self)@ == old(self)@.insert(old(self).keys@[i as int]@, v@),
            final(self).keys@ == old(self).keys@,
    {
        let ghost pre = *self;
        let ghost k = self.keys@[i as int]@;
        self.model = Ghost(self.model@.insert(k, v@));
        self.nodes.set(i, v);
        assert forall|j: int| 0 <= j < self.keys@.len() implies self.model@[#[trigger] self.keys@[j]@] == self.nodes@[j]@ by {
            if j != i {
                assert(self.keys@[j]@ != k);
            }
        }
        assert forall|kk: Seq<char>| #[trigger] self.model@.contains_key(kk) implies exists|j: int| 0 <= j < self.keys@.len() && self.keys@[j]@ == kk by {
            if kk == k {
                assert(self.keys@[i as int]@ == kk);
            } else {
                assert(pre.model@.contains_key(kk));
                let j = choose|j: int| 0 <= j < pre.keys@.len() && pre.keys@[j]@ == kk;
                assert(self.keys@[j]@ == kk);
            }
        }
        assert(forall|j: int| 0 <= j < self.nodes@.len() ==> #[trigger] self.nodes@[j].wf());
        assert(self.keys@ == pre.keys@);
    }

    /// Stores `v` under `key`, replacing any previous record.
    pub fn insert(&mut self, key: &str, v: NodeValue)
        requires
            old(self).wf(),
            v.wf(),
        ensures
            final(self).wf(),
            final(self)@ == old(self)@.insert(key@, v@),
    {
        let i = self.slot(key);
        self.store_at(i, v);
        assert(self@ =~= old(self)@.insert(key@, v@));
    }

    /// Adds `child` to the children of `key`, creating its record when absent.
    pub fn add_child(&mut self, key: &str, child: &str)
        requires
            old(self).wf(),
        ensures
            final(self).wf(),
            final(self)@ == apply_op(old(self)@, Op::AddChild(key@, child@)),
    {
        let i = self.slot(key);
        assert(self.nodes@[i as int].wf());
        let mut v = self.nodes[i].duplicate();
        v.add_child(child);
        self.store_at(i, v);
        assert(self@ =~= apply_op(old(self)@, Op::AddChild(key@, child@)));
    }

    /// Records `scheme` for `key` under the sticky-https rule; with `endpoint`, also marks
    /// `key` as an endpoint.
    pub fn observe(&mut self, key: &str, scheme: &str, endpoint: bool)
        requires
            old(self).wf(),
        ensures
            final(self).wf(),
            final(self)@ == apply_op(
                old(self)@,
                if endpoint { Op::Endpoint(key@, scheme@) } else { Op::Scheme(key@, scheme@) },
            ),
    {
        let i = self.slot(key);
        assert(self.nodes@[i as int].wf());
        let mut v = self.nodes[i].duplicate();
        v.observe_scheme(scheme);
        if endpoint {
            v.is_endpoint = true;
        }
        self.store_at(i, v);
        assert(self@ =~= apply_op(
            old(self)@,
            if endpoint { Op::Endpoint(key@, scheme@) } else { Op::Scheme(key@, scheme@) },
        ));
    }

    /// Whether `key` is present.
    pub fn contains(&self, key: &str) -> (r: bool)
        requires
            self.wf(),
        ensures
            r == self@.contains_key(key@),
    {
        self.find(key).is_some()
    }

    /// The entries whose keys `doomed` does not hold.
    pub fn without(&self, doomed: &NodeMap) -> (r: NodeMap)
        requires
            self.wf(),
            doomed.wf(),
        ensures
            r.wf(),
            r@ == self@.remove_keys(doomed@.dom()),
    {
        let mut r = NodeMap::new();
        let mut i: usize = 0;
        while i < self.keys.len()
            invariant
                self.wf(),
                doomed.wf(),
                r.wf(),
                i <= self.keys@.len(),
                forall|k: Seq<char>| #[trigger] r@.contains_key(k) <==> (!doomed@.contains_key(k) && exists|j: int| 0 <= j < i && self.keys@[j]@ == k),
                forall|k: Seq<char>| #[trigger] r@.contains_key(k) ==> r@[k] == self@[k],
            decreases self.keys@.len() - i,
        {
            let ghost pre = r@;
            if !doomed.contains(self.keys[i].as_str()) {
                assert(self.nodes@[i as int].wf());
                let v = self.nodes[i].duplicate();
                r.insert(self.keys[i].as_str(), v);
            }
            proof {
                assert forall|k: Seq<char>| #[trigger] r@.contains_key(k) <==> (!doomed@.contains_key(k) && exists|j: int| 0 <= j < i + 1 && self.keys@[j]@ == k) by {
                    if exists|j: int| 0 <= j < i + 1 && self.keys@[j]@ == k {
                        let j = choose|j: int| 0 <= j < i + 1 && self.keys@[j]@ == k;
                        if j < i {
                            assert(exists|j: int| 0 <= j < i && self.keys@[j]@ == k);
                        }
                    }
                    if exists|j: int| 0 <= j < i && self.keys@[j]@ == k {
                        let j = choose|j: int| 0 <= j < i && self.keys@[j]@ == k;
                        assert(0 <= j < i + 1 && self.keys@[j]@ == k);
                    }
                }
            }
            i = i + 1;
        }
        proof {
            assert forall|k: Seq<char>| #[trigger] self@.contains_key(k) implies exists|j: int| 0 <= j < self.keys@.len() && self.keys@[j]@ == k by {}
            assert forall|j: int| 0 <= j < self.keys@.len() implies #[trigger] self@.contains_key(self.keys@[j]@) by {}
            assert(r@ =~= self@.remove_keys(doomed@.dom()));
        }
        r
    }

    /// Every key held, each once, in no particular order.
    pub fn keys(&self) -> (r: Vec<String>)
        requires
            self.wf(),
        ensures
            distinct_texts(r@),
            forall|k: Seq<char>| #[trigger] self@.contains_key(k) <==> exists|i: int| 0 <= i < r@.len() && r@[i]@ == k,
    {
        let mut r: Vec<String> = Vec::new();
        let mut i: usize = 0;
        while i < self.keys.len()
            invariant
                self.wf(),
                i <= self.keys@.len(),
                r@.len() == i,
                forall|j: int| 0 <= j < i ==> (#[trigger] r@[j])@ == self.keys@[j]@,
            decreases self.keys@.len() - i,
        {
            r.push(self.keys[i].clone());
            i = i + 1;
        }
        assert forall|x: int, y: int| 0 <= x < r@.len() && 0 <= y < r@.len() && x != y implies r@[x]@ != r@[y]@ by {
            assert(r@[x]@ == self.keys@[x]@ && r@[y]@ == self.keys@[y]@);
        }
        assert forall|k: Seq<char>| #[trigger] self@.contains_key(k) <==> exists|i: int| 0 <= i < r@.len() && r@[i]@ == k by {
            if self@.contains_key(k) {
                let i = choose|i: int| 0 <= i < self.keys@.len() && self.keys@[i]@ == k;
                assert(r@[i]@ == k);
            }
            if exists|i: int| 0 <= i < r@.len() && r@[i]@ == k {
                let i = choose|i: int| 0 <= i < r@.len() && r@[i]@ == k;
                assert(r@[i]@ == self.keys@[i]@);
            }
        }
        r
    }

    /// Merges every record of `batch` into the record under the same key (absent: empty):
    /// children are united, `is_endpoint` is or-ed, and a stored `https` is never replaced.
    pub fn merge_batch(&mut self, batch: &NodeMap)
        requires
            old(self).wf(),
            batch.wf(),
        ensures
            final(self).wf(),
            final(self)@ == merged_map(old(self)@, batch@),
    {
        let ghost m0 = self@;
        let mut i: usize = 0;
        while i < batch.keys.len()
            invariant
                self.wf(),
                batch.wf(),
                i <= batch.keys@.len(),
                forall|k: Seq<char>| #![trigger self@.contains_key(k)]
                    self@.contains_key(k) <==> (m0.contains_key(k) || exists|j: int| 0 <= j < i && batch.keys@[j]@ == k),
                forall|k: Seq<char>| #![trigger self@[k]] self@.contains_key(k) ==> self@[k] == if exists|j: int| 0 <= j < i && batch.keys@[j]@ == k {
                    merge_view(node_of(m0, k), batch@[k])
                } else {
                    m0[k]
                },
            decreases batch.keys@.len() - i,
        {
            let ghost pre = self@;
            let key = &batch.keys[i];
            assert(batch.nodes@[i as int].wf());
            assert(batch@[key@] == batch.nodes@[i as int]@);
            let merged = match self.get(key.as_str()) {
                Some(existing) => merge_node(existing, &batch.nodes[i]),
                None => {
                    let empty = NodeValue::new();
                    merge_node(&empty, &batch.nodes[i])
                },
            };
            proof {
                assert(forall|j: int| 0 <= j < i ==> batch.keys@[j]@ != key@);
                if pre.contains_key(key@) {
                    assert(pre[key@] == m0[key@]);
                    assert(node_of(m0, key@) == m0[key@]);
                } else {
                    assert(!m0.contains_key(key@));
                }
            }
            self.insert(key.as_str(), merged);
            proof {
                assert forall|k: Seq<char>| #![trigger self@.contains_key(k)]
                    self@.contains_key(k) <==> (m0.contains_key(k) || exists|j: int| 0 <= j < i + 1 && batch.keys@[j]@ == k) by {
                    if k == key@ {
                    } else if exists|j: int| 0 <= j < i + 1 && batch.keys@[j]@ == k {
                        let j = choose|j: int| 0 <= j < i + 1 && batch.keys@[j]@ == k;
                        assert(j != i);
                    }
                }
                assert forall|k: Seq<char>| #![trigger self@[k]] self@.contains_key(k) implies self@[k] == if exists|j: int| 0 <= j < i + 1 && batch.keys@[j]@ == k {
                    merge_view(node_of(m0, k), batch@[k])
                } else {
                    m0[k]
                } by {
                    if k == key@ {
                        assert(exists|j: int| 0 <= j < i + 1 && batch.keys@[j]@ == k) by {
                            assert(batch.keys@[i as int]@ == k);
                        }
                    } else {
                        if exists|j: int| 0 <= j < i + 1 && batch.keys@[j]@ == k {
                            let j = choose|j: int| 0 <= j < i + 1 && batch.keys@[j]@ == k;
                            assert(j != i);
                        }
                    }
                }
            }
            i = i + 1;
        }
        proof {
            assert forall|k: Seq<char>| #[trigger] batch@.contains_key(k) <==> exists|j: int| 0 <= j < batch.keys@.len() && batch.keys@[j]@ == k by {
                if exists|j: int| 0 <= j < batch.keys@.len() && batch.keys@[j]@ == k {
                    let j = choose|j: int| 0 <= j < batch.keys@.len() && batch.keys@[j]@ == k;
                    assert(batch.model@.contains_key(batch.keys@[j]@));
                }
            }
            assert(self@ =~= merged_map(m0, batch@));
        }
    }
}

/// The store after merging every record of `batch` into it.
pub open spec fn merged_map(store: Map<Seq<char>, NodeView>, batch: Map<Seq<char>, NodeView>) -> Map<Seq<char>, NodeView> {
    Map::new(
        |k: Seq<char>| store.contains_key(k) || batch.contains_key(k),
        |k: Seq<char>| if batch.contains_key(k) {
            merge_view(node_of(store, k), batch[k])
        } else {
            store[k]
        },
    )
}

} // verus!
