use vstd::prelude::*;
use crate::ingest::{join, texts, under};
use crate::node::{NodeValue, NodeView, distinct_texts, text_set};
use crate::node_map::{NodeMap, node_of, root_key};
use crate::text::same_text;

verus! {

/// The key of child `c` of key `k`: the bare name under the root, `k/c` elsewhere.
pub open spec fn child_key(k: Seq<char>, c: Seq<char>) -> Seq<char> {
    if k == root_key() {
        c
    } else {
        under(k, c)
    }
}

/// `b` is present and is the key of a child of `a`.
pub open spec fn step(m: Map<Seq<char>, NodeView>, a: Seq<char>, b: Seq<char>) -> bool {
    m.contains_key(a) && m.contains_key(b) && exists|c: Seq<char>|
        #[trigger] m[a].children.contains(c) && child_key(a, c) == b
}

/// A chain of present keys, each a child of the one before it.
pub open spec fn is_path(m: Map<Seq<char>, NodeView>, p: Seq<Seq<char>>) -> bool {
    &&& p.len() > 0
    &&& m.contains_key(p[0])
    &&& forall|i: int| 0 <= i < p.len() - 1 ==> #[trigger] step(m, p[i], p[i + 1])
}

/// `k` is reached from `from` by following children.
pub open spec fn reachable(m: Map<Seq<char>, NodeView>, from: Seq<char>, k: Seq<char>) -> bool {
    exists|p: Seq<Seq<char>>| #[trigger] is_path(m, p) && p[0] == from && p.last() == k
}

/// The keys of the subtree at `from`: empty when `from` is absent.
pub open spec fn subtree(m: Map<Seq<char>, NodeView>, from: Seq<char>) -> Set<Seq<char>> {
    Set::new(|k: Seq<char>| reachable(m, from, k))
}

/// No two entries are equal.
pub open spec fn distinct(s: Seq<Seq<char>>) -> bool {
    forall|i: int, j: int| 0 <= i < s.len() && 0 <= j < s.len() && i != j ==> s[i] != s[j]
}

/// Outcome of writing an export file.
pub enum SaveProgress {
    Finished,
    Errored(String),
}

/// The record stored under `key`, if any.
pub fn get_node_value(store: &NodeMap, key: &str) -> (r: Option<NodeValue>)
    requires
        store.wf(),
    ensures
        match r {
            Some(v) => store@.contains_key(key@) && v@ == store@[key@] && v.wf(),
            None => !store@.contains_key(key@),
        },
{
    match store.get(key) {
        Some(v) => {
            let c = v.duplicate();
            Some(c)
        },
        None => None,
    }
}

/// The names of the immediate children of `key`, each once; none when `key` is absent.
pub fn get_children(store: &NodeMap, key: &str) -> (r: Vec<String>)
    requires
        store.wf(),
    ensures
        text_set(r@) == node_of(store@, key@).children,
        distinct_texts(r@),
{
    match store.get(key) {
        Some(v) => v.duplicate().children,
        None => {
            let r: Vec<String> = Vec::new();
            assert(text_set(r@) =~= Set::empty());
            r
        },
    }
}

/// Whether `k` is the root's own key.
fn is_root_key(k: &str) -> (r: bool)
    ensures
        r == (k@ == root_key()),
{
    proof {
        reveal_strlit("__ROOT__");
        assert("__ROOT__"@ =~= root_key());
    }
    same_text(k, "__ROOT__")
}

/// The key of child `c` of key `k`.
pub fn make_child_key(k: &str, c: &str) -> (r: String)
    ensures
        r@ == child_key(k@, c@),
{
    proof {
        reveal_strlit("__ROOT__");
        reveal_strlit("/");
        assert("__ROOT__"@ =~= root_key());
    }
    if same_text(k, "__ROOT__") {
        c.to_owned()
    } else {
        let r = k.to_owned().concat("/").concat(c);
        assert(r@ =~= under(k@, c@));
        r
    }
}

proof fn lemma_size_bound(m: Map<Seq<char>, NodeView>, s: Seq<Seq<char>>)
    requires
        m.dom().finite(),
        distinct(s),
        forall|i: int| 0 <= i < s.len() ==> m.contains_key(#[trigger] s[i]),
    ensures
        s.len() <= m.dom().len(),
{
    assert(s.no_duplicates());
    s.unique_seq_to_set();
    assert(s.to_set().subset_of(m.dom()));
    vstd::set_lib::lemma_len_subset(s.to_set(), m.dom());
}

proof fn lemma_closed_has_reachable(m: Map<Seq<char>, NodeView>, r: Seq<Seq<char>>, p: Seq<Seq<char>>)
    requires
        is_path(m, p),
        r.contains(p[0]),
        forall|i: int| 0 <= i < r.len() ==> m.contains_key(#[trigger] r[i]),
        forall|i: int, c: Seq<char>|
            0 <= i < r.len() && #[trigger] m[r[i]].children.contains(c) && m.contains_key(
                child_key(r[i], c),
            ) ==> r.contains(child_key(r[i], c)),
    ensures
        r.contains(p.last()),
    decreases p.len(),
{
    if p.len() > 1 {
        let q = p.drop_last();
        assert forall|i: int| 0 <= i < q.len() - 1 implies #[trigger] step(m, q[i], q[i + 1]) by {
            assert(step(m, p[i], p[i + 1]));
        }
        lemma_closed_has_reachable(m, r, q);
        let a = q.last();
        let i0 = p.len() - 2;
        assert(step(m, p[i0], p[i0 + 1]));
        let c = choose|c: Seq<char>| #[trigger] m[a].children.contains(c) && child_key(a, c) == p.last();
        let i = choose|i: int| 0 <= i < r.len() && r[i] == a;
        assert(m[r[i]].children.contains(c));
    }
}

/// The keys of the subtree at `key`: `key` itself when present, and every key reached from
/// it through `children`, each once. Keys are never followed back to one already listed.
pub fn collect_subtree(store: &NodeMap, key: &str) -> (r: Vec<String>)
    requires
        store.wf(),
    ensures
        distinct(texts(r@)),
        texts(r@).to_set() == subtree(store@, key@),
{
    let ghost m = store@;
    let mut r: Vec<String> = Vec::new();
    if !store.contains(key) {
        assert(texts(r@).to_set() =~= subtree(m, key@)) by {
            assert forall|k: Seq<char>| !#[trigger] subtree(m, key@).contains(k) by {
                if reachable(m, key@, k) {
                    let p = choose|p: Seq<Seq<char>>| #[trigger] is_path(m, p) && p[0] == key@ && p.last() == k;
                }
            }
        }
        return r;
    }
    proof {
        store.lemma_finite();
    }
    r.push(key.to_owned());
    let mut seen = NodeMap::new();
    seen.insert(key, NodeValue::new());
    proof {
        assert forall|x: Seq<char>| #[trigger] seen@.contains_key(x) <==> texts(r@).contains(x) by {
            if x == key@ {
                assert(texts(r@)[0] == x);
            }
        }
        let p = seq![key@];
        assert(is_path(m, p));
        assert(reachable(m, key@, key@));
    }
    let mut j: usize = 0;
    while j < r.len()
        invariant
            store.wf(),
            m == store@,
            m.dom().finite(),
            m.contains_key(key@),
            r@.len() > 0,
            texts(r@)[0] == key@,
            j <= r@.len(),
            seen.wf(),
            forall|x: Seq<char>| #[trigger] seen@.contains_key(x) <==> texts(r@).contains(x),
            r@.len() <= m.dom().len(),
            distinct(texts(r@)),
            forall|i: int| 0 <= i < r@.len() ==> m.contains_key(#[trigger] texts(r@)[i]),
            forall|i: int| 0 <= i < r@.len() ==> reachable(m, key@, #[trigger] texts(r@)[i]),
            forall|i: int, c: Seq<char>|
                0 <= i < j && #[trigger] m[texts(r@)[i]].children.contains(c) && m.contains_key(
                    child_key(texts(r@)[i], c),
                ) ==> texts(r@).contains(child_key(texts(r@)[i], c)),
        decreases m.dom().len() - j,
    {
        let ghost kj = texts(r@)[j as int];
        let node = match store.get(r[j].as_str()) {
            Some(n) => n,
            None => {
                assert(false);
                return r;
            },
        };
        let cur = r[j].clone();
        let mut t: usize = 0;
        while t < node.children.len()
            invariant
                store.wf(),
                m == store@,
                m.dom().finite(),
                r@.len() > 0,
                texts(r@)[0] == key@,
                j < r@.len(),
                texts(r@)[j as int] == kj,
                cur@ == kj,
                node@ == m[kj],
                t <= node.children@.len(),
                seen.wf(),
                forall|x: Seq<char>| #[trigger] seen@.contains_key(x) <==> texts(r@).contains(x),
                r@.len() <= m.dom().len(),
                distinct(texts(r@)),
                forall|i: int| 0 <= i < r@.len() ==> m.contains_key(#[trigger] texts(r@)[i]),
                forall|i: int| 0 <= i < r@.len() ==> reachable(m, key@, #[trigger] texts(r@)[i]),
                forall|i: int, c: Seq<char>|
                    0 <= i < j && #[trigger] m[texts(r@)[i]].children.contains(c) && m.contains_key(
                        child_key(texts(r@)[i], c),
                    ) ==> texts(r@).contains(child_key(texts(r@)[i], c)),
                forall|u: int|
                    0 <= u < t && m.contains_key(child_key(kj, #[trigger] node.children@[u]@))
                        ==> texts(r@).contains(child_key(kj, node.children@[u]@)),
            decreases node.children@.len() - t,
        {
            let ck = make_child_key(cur.as_str(), node.children[t].as_str());
            let ghost pre = r@;
            if store.contains(ck.as_str()) && !seen.contains(ck.as_str()) {
                proof {
                    let pj = choose|p: Seq<Seq<char>>| #[trigger] is_path(m, p) && p[0] == key@ && p.last() == kj;
                    let c = node.children@[t as int]@;
                    assert(m[kj].children.contains(c)) by {
                        assert(node@.children.contains(c));
                    }
                    assert(step(m, kj, ck@));
                    let q = pj.push(ck@);
                    assert forall|i: int| 0 <= i < q.len() - 1 implies #[trigger] step(m, q[i], q[i + 1]) by {
                        if i < pj.len() - 1 {
                            assert(step(m, pj[i], pj[i + 1]));
                        }
                    }
                    assert(is_path(m, q));
                    assert(reachable(m, key@, ck@));
                }
                seen.insert(ck.as_str(), NodeValue::new());
                r.push(ck);
                proof {
                    assert(texts(r@) =~= texts(pre).push(r@.last()@));
                    lemma_size_bound(m, texts(r@));
                    assert forall|i: int| 0 <= i < r@.len() implies reachable(m, key@, #[trigger] texts(r@)[i]) by {
                        if i < pre.len() {
                            assert(texts(r@)[i] == texts(pre)[i]);
                        }
                    }
                }
            }
            proof {
                assert forall|x: Seq<char>| texts(pre).contains(x) implies #[trigger] texts(r@).contains(x) by {
                    let i = choose|i: int| 0 <= i < texts(pre).len() && texts(pre)[i] == x;
                    assert(texts(r@)[i] == x);
                }
                if m.contains_key(ck@) {
                    if !texts(pre).contains(ck@) {
                        assert(texts(r@).last() == ck@);
                    }
                }
                assert forall|x: Seq<char>| #[trigger] seen@.contains_key(x) <==> texts(r@).contains(x) by {
                    if texts(r@).contains(x) && !texts(pre).contains(x) {
                        let i = choose|i: int| 0 <= i < texts(r@).len() && texts(r@)[i] == x;
                        if i < pre.len() {
                            assert(texts(pre)[i] == x);
                        }
                    }
                }
            }
            t = t + 1;
        }
        proof {
            assert forall|i: int, c: Seq<char>|
                0 <= i < j + 1 && #[trigger] m[texts(r@)[i]].children.contains(c) && m.contains_key(
                    child_key(texts(r@)[i], c),
                ) implies texts(r@).contains(child_key(texts(r@)[i], c)) by {
                if i == j {
                    assert(node@.children.contains(c));
                    let u = choose|u: int| 0 <= u < node.children@.len() && node.children@[u]@ == c;
                }
            }
        }
        j = j + 1;
    }
    proof {
        let rs = texts(r@);
        assert(rs.to_set() =~= subtree(m, key@)) by {
            assert forall|k: Seq<char>| subtree(m, key@).contains(k) implies rs.to_set().contains(k) by {
                let p = choose|p: Seq<Seq<char>>| #[trigger] is_path(m, p) && p[0] == key@ && p.last() == k;
                assert(rs[0] == key@);
                assert(rs.contains(p[0]));
                lemma_closed_has_reachable(m, rs, p);
            }
            assert forall|k: Seq<char>| rs.to_set().contains(k) implies subtree(m, key@).contains(k) by {
                let i = choose|i: int| 0 <= i < rs.len() && rs[i] == k;
                assert(reachable(m, key@, rs[i]));
            }
        }
    }
    r
}

} // verus!

verus! {

/// `k` is an endpoint, and not the root's own key when `skip_root` holds.
pub open spec fn counts(m: Map<Seq<char>, NodeView>, k: Seq<char>, skip_root: bool) -> bool {
    m[k].is_endpoint && !(skip_root && k == root_key())
}

/// The keys of `s` that count, in order.
pub open spec fn endpoints_in(m: Map<Seq<char>, NodeView>, s: Seq<Seq<char>>, skip_root: bool) -> Seq<Seq<char>>
    decreases s.len(),
{
    if s.len() == 0 {
        s
    } else if counts(m, s.last(), skip_root) {
        endpoints_in(m, s.drop_last(), skip_root).push(s.last())
    } else {
        endpoints_in(m, s.drop_last(), skip_root)
    }
}

/// The keys of the subtree at `from` that count.
pub open spec fn listed_keys(m: Map<Seq<char>, NodeView>, from: Seq<char>, skip_root: bool) -> Set<Seq<char>> {
    subtree(m, from).filter(|k: Seq<char>| counts(m, k, skip_root))
}

/// The endpoint keys of the subtree at `from`.
pub open spec fn endpoint_keys(m: Map<Seq<char>, NodeView>, from: Seq<char>) -> Set<Seq<char>> {
    listed_keys(m, from, false)
}

/// The endpoint keys of the subtree at `from`, the root's own key left out.
pub open spec fn exported_keys(m: Map<Seq<char>, NodeView>, from: Seq<char>) -> Set<Seq<char>> {
    listed_keys(m, from, true)
}

/// The full URL of an endpoint key: `scheme://key`, or the bare key without a scheme.
pub open spec fn full_url(m: Map<Seq<char>, NodeView>, k: Seq<char>) -> Seq<char> {
    match m[k].scheme {
        Some(s) => s + seq![':', '/', '/'] + k,
        None => k,
    }
}

/// `a` comes no later than `b` in lexicographic order of characters.
pub open spec fn lex_le(a: Seq<char>, b: Seq<char>) -> bool
    decreases a.len(),
{
    if a.len() == 0 {
        true
    } else if b.len() == 0 {
        false
    } else if a[0] != b[0] {
        (a[0] as u32) < (b[0] as u32)
    } else {
        lex_le(a.drop_first(), b.drop_first())
    }
}

pub open spec fn sorted(s: Seq<Seq<char>>) -> bool {
    forall|i: int, j: int| 0 <= i < j < s.len() ==> lex_le(s[i], s[j])
}

/// Relies on `slice::sort` over `String`, whose order compares the UTF-8 bytes, which
/// orders as the characters do.
#[verifier::external_body]
fn sort_texts(v: &mut Vec<String>)
    ensures
        texts(final(v)@).to_multiset() == texts(old(v)@).to_multiset(),
        sorted(texts(final(v)@)),
{
    v.sort();
}

proof fn lemma_endpoints_in(m: Map<Seq<char>, NodeView>, s: Seq<Seq<char>>, b: bool)
    requires
        distinct(s),
    ensures
        distinct(endpoints_in(m, s, b)),
        endpoints_in(m, s, b).len() <= s.len(),
        forall|k: Seq<char>| #[trigger] endpoints_in(m, s, b).contains(k) <==> (s.contains(k) && counts(m, k, b)),
    decreases s.len(),
{
    if s.len() > 0 {
        let t = s.drop_last();
        assert(distinct(t)) by {
            assert forall|i: int, j: int| 0 <= i < t.len() && 0 <= j < t.len() && i != j implies t[i] != t[j] by {
                assert(t[i] == s[i] && t[j] == s[j]);
            }
        }
        lemma_endpoints_in(m, t, b);
        assert(!t.contains(s.last())) by {
            if t.contains(s.last()) {
                let i = choose|i: int| 0 <= i < t.len() && t[i] == s.last();
                assert(s[i] == s[s.len() - 1]);
            }
        }
        assert forall|k: Seq<char>| s.contains(k) <==> (t.contains(k) || k == s.last()) by {
            if s.contains(k) {
                let i = choose|i: int| 0 <= i < s.len() && s[i] == k;
                if i < s.len() - 1 {
                    assert(t[i] == k);
                }
            }
            if t.contains(k) {
                let i = choose|i: int| 0 <= i < t.len() && t[i] == k;
                assert(s[i] == k);
            }
        }
        let e = endpoints_in(m, t, b);
        if counts(m, s.last(), b) {
            let f = e.push(s.last());
            assert forall|k: Seq<char>| f.contains(k) <==> (e.contains(k) || k == s.last()) by {
                if f.contains(k) {
                    let i = choose|i: int| 0 <= i < f.len() && f[i] == k;
                    if i < e.len() {
                        assert(e[i] == k);
                    }
                }
                if e.contains(k) {
                    let i = choose|i: int| 0 <= i < e.len() && e[i] == k;
                    assert(f[i] == k);
                }
                if k == s.last() {
                    assert(f[e.len() as int] == k);
                }
            }
            assert forall|i: int, j: int| 0 <= i < f.len() && 0 <= j < f.len() && i != j implies f[i] != f[j] by {
                if i < e.len() && j < e.len() {
                    assert(f[i] == e[i] && f[j] == e[j]);
                } else if i < e.len() {
                    assert(e.contains(f[i]));
                } else if j < e.len() {
                    assert(e.contains(f[j]));
                }
            }
        }
    }
}

proof fn lemma_endpoint_count(m: Map<Seq<char>, NodeView>, s: Seq<Seq<char>>, from: Seq<char>, b: bool)
    requires
        distinct(s),
        s.to_set() == subtree(m, from),
    ensures
        endpoints_in(m, s, b).len() == listed_keys(m, from, b).len(),
        endpoints_in(m, s, b).to_set() == listed_keys(m, from, b),
        distinct(endpoints_in(m, s, b)),
{
    lemma_endpoints_in(m, s, b);
    let e = endpoints_in(m, s, b);
    assert(e.to_set() =~= listed_keys(m, from, b)) by {
        assert forall|k: Seq<char>| e.to_set().contains(k) <==> listed_keys(m, from, b).contains(k) by {
            assert(s.to_set().contains(k) <==> s.contains(k));
        }
    }
    assert(e.no_duplicates());
    e.unique_seq_to_set();
}

/// Number of endpoint records among `keys`.
fn count_endpoints(store: &NodeMap, keys: &Vec<String>) -> (r: usize)
    requires
        store.wf(),
        forall|i: int| 0 <= i < keys@.len() ==> store@.contains_key(#[trigger] texts(keys@)[i]),
    ensures
        r == endpoints_in(store@, texts(keys@), false).len(),
{
    let mut count: usize = 0;
    let mut j: usize = 0;
    while j < keys.len()
        invariant
            store.wf(),
            forall|i: int| 0 <= i < keys@.len() ==> store@.contains_key(#[trigger] texts(keys@)[i]),
            j <= keys@.len(),
            count == endpoints_in(store@, texts(keys@).subrange(0, j as int), false).len(),
            count <= j,
        decreases keys@.len() - j,
    {
        let ghost t = texts(keys@).subrange(0, j + 1);
        assert(t.drop_last() =~= texts(keys@).subrange(0, j as int));
        assert(t.last() == texts(keys@)[j as int]);
        match store.get(keys[j].as_str()) {
            Some(n) => {
                if n.is_endpoint {
                    count = count + 1;
                }
            },
            None => {},
        }
        j = j + 1;
    }
    assert(texts(keys@).subrange(0, keys@.len() as int) =~= texts(keys@));
    count
}

/// The full URLs (`scheme://key`) of the endpoints in the subtree at `key` that count,
/// sorted. Each such key gives one line.
fn list_endpoints(store: &NodeMap, key: &str, skip_root: bool) -> (r: Vec<String>)
    requires
        store.wf(),
    ensures
        r@.len() == listed_keys(store@, key@, skip_root).len(),
        forall|u: Seq<char>| #[trigger] texts(r@).contains(u) <==> exists|k: Seq<char>|
            #[trigger] listed_keys(store@, key@, skip_root).contains(k) && full_url(store@, k) == u,
        exists|e: Seq<Seq<char>>|
            distinct(e) && e.to_set() == listed_keys(store@, key@, skip_root) && #[trigger] texts(r@).to_multiset()
                == e.map_values(|k: Seq<char>| full_url(store@, k)).to_multiset(),
        sorted(texts(r@)),
{
    let ghost m = store@;
    let keys = collect_subtree(store, key);
    let ghost ks = texts(keys@);
    let mut out: Vec<String> = Vec::new();
    let mut j: usize = 0;
    proof {
        reveal_strlit("://");
        assert("://"@ =~= seq![':', '/', '/']);
        assert forall|i: int| 0 <= i < ks.len() implies m.contains_key(#[trigger] ks[i]) by {
            assert(ks.to_set().contains(ks[i]));
            assert(subtree(m, key@).contains(ks[i]));
            let p = choose|p: Seq<Seq<char>>| #[trigger] is_path(m, p) && p[0] == key@ && p.last() == ks[i];
            if p.len() > 1 {
                let i0 = p.len() - 2;
                assert(step(m, p[i0], p[i0 + 1]));
            }
        }
    }
    while j < keys.len()
        invariant
            store.wf(),
            m == store@,
            ks == texts(keys@),
            forall|i: int| 0 <= i < ks.len() ==> m.contains_key(#[trigger] ks[i]),
            j <= keys@.len(),
            texts(out@) == endpoints_in(m, ks.subrange(0, j as int), skip_root).map_values(|k: Seq<char>| full_url(m, k)),
        decreases keys@.len() - j,
    {
        let ghost t = ks.subrange(0, j + 1);
        assert(t.drop_last() =~= ks.subrange(0, j as int));
        assert(t.last() == ks[j as int]);
        let ghost pre = out@;
        let at_root = is_root_key(keys[j].as_str());
        match store.get(keys[j].as_str()) {
            Some(n) => {
                if n.is_endpoint && !(skip_root && at_root) {
                    let u = match &n.scheme {
                        Some(s) => {
                            proof {
                                reveal_strlit("://");
                            }
                            let u = s.clone().concat("://").concat(keys[j].as_str());
                            assert(keys@[j as int]@ == ks[j as int]);
                            assert(m[ks[j as int]].scheme == Some(s@));
                            assert("://"@ =~= seq![':', '/', '/']);
                            assert(u@ =~= full_url(m, ks[j as int]));
                            u
                        },
                        None => keys[j].clone(),
                    };
                    out.push(u);
                    assert(texts(out@) =~= texts(pre).push(full_url(m, ks[j as int])));
                }
            },
            None => {},
        }
        j = j + 1;
    }
    let ghost unsorted = out@;
    sort_texts(&mut out);
    proof {
        broadcast use vstd::seq_lib::group_to_multiset_ensures;

        assert(ks.subrange(0, ks.len() as int) =~= ks);
        let e = endpoints_in(m, ks, skip_root);
        lemma_endpoint_count(m, ks, key@, skip_root);
        lemma_endpoints_in(m, ks, skip_root);
        assert(texts(out@).to_multiset() == texts(unsorted).to_multiset());
        assert(texts(unsorted) == e.map_values(|k: Seq<char>| full_url(m, k)));
        texts(out@).to_multiset_ensures();
        texts(unsorted).to_multiset_ensures();
        assert(texts(out@).len() == texts(unsorted).len());
        assert forall|u: Seq<char>| #[trigger] texts(out@).contains(u) <==> exists|k: Seq<char>|
            #[trigger] listed_keys(m, key@, skip_root).contains(k) && full_url(m, k) == u by {
            assert(texts(out@).to_multiset().count(u) == texts(unsorted).to_multiset().count(u));
            assert(texts(out@).contains(u) <==> texts(unsorted).contains(u));
            if texts(unsorted).contains(u) {
                let i = choose|i: int| 0 <= i < texts(unsorted).len() && texts(unsorted)[i] == u;
                assert(e.to_set().contains(e[i]));
            }
            if exists|k: Seq<char>| #[trigger] listed_keys(m, key@, skip_root).contains(k) && full_url(m, k) == u {
                let k = choose|k: Seq<char>| #[trigger] listed_keys(m, key@, skip_root).contains(k) && full_url(m, k) == u;
                assert(e.to_set().contains(k));
                let i = choose|i: int| 0 <= i < e.len() && e[i] == k;
                assert(texts(unsorted)[i] == u);
            }
        }
    }
    out
}

/// The full URLs (`scheme://key`) of every endpoint in the subtree at `key`, `key` itself
/// included, sorted. Each endpoint key gives one line.
pub fn enumerate_endpoints(store: &NodeMap, key: &str) -> (r: Vec<String>)
    requires
        store.wf(),
    ensures
        r@.len() == endpoint_keys(store@, key@).len(),
        forall|u: Seq<char>| #[trigger] texts(r@).contains(u) <==> exists|k: Seq<char>|
            #[trigger] endpoint_keys(store@, key@).contains(k) && full_url(store@, k) == u,
        exists|e: Seq<Seq<char>>|
            distinct(e) && e.to_set() == endpoint_keys(store@, key@) && #[trigger] texts(r@).to_multiset()
                == e.map_values(|k: Seq<char>| full_url(store@, k)).to_multiset(),
        sorted(texts(r@)),
{
    list_endpoints(store, key, false)
}

/// The export of the store: the full URLs of every endpoint reached from the root, sorted,
/// the root's own key left out.
pub fn export_endpoints(store: &NodeMap) -> (r: Vec<String>)
    requires
        store.wf(),
    ensures
        r@.len() == exported_keys(store@, root_key()).len(),
        forall|u: Seq<char>| #[trigger] texts(r@).contains(u) <==> exists|k: Seq<char>|
            #[trigger] exported_keys(store@, root_key()).contains(k) && full_url(store@, k) == u,
        exists|e: Seq<Seq<char>>|
            distinct(e) && e.to_set() == exported_keys(store@, root_key()) && #[trigger] texts(r@).to_multiset()
                == e.map_values(|k: Seq<char>| full_url(store@, k)).to_multiset(),
        sorted(texts(r@)),
{
    proof {
        reveal_strlit("__ROOT__");
        assert("__ROOT__"@ =~= root_key());
    }
    list_endpoints(store, "__ROOT__", true)
}

} // verus!

verus! {

/// The key of a path of segments: the first, then each further one after a `/`.
pub open spec fn path_key(segs: Seq<Seq<char>>) -> Seq<char> {
    join(segs[0], segs.subrange(1, segs.len() as int))
}

/// The key whose children list the last segment of `segs`: the root for a host.
pub open spec fn parent_key(segs: Seq<Seq<char>>) -> Seq<char> {
    if segs.len() == 1 {
        root_key()
    } else {
        path_key(segs.drop_last())
    }
}

/// `m` with `seg` taken out of the children of `p`, when `p` is present and lists it.
pub open spec fn unlinked(m: Map<Seq<char>, NodeView>, p: Seq<char>, seg: Seq<char>) -> Map<Seq<char>, NodeView> {
    if m.contains_key(p) && m[p].children.contains(seg) {
        m.insert(p, NodeView { children: m[p].children.remove(seg), ..m[p] })
    } else {
        m
    }
}

/// The store after deleting the subtree at `segs` and repairing its parent; unchanged when
/// the key of `segs` is absent.
pub open spec fn deleted(m: Map<Seq<char>, NodeView>, segs: Seq<Seq<char>>) -> Map<Seq<char>, NodeView> {
    if m.contains_key(path_key(segs)) {
        unlinked(m.remove_keys(subtree(m, path_key(segs))), parent_key(segs), segs.last())
    } else {
        m
    }
}

/// The key of the first `n` segments of `path`.
fn join_path(path: &Vec<String>, n: usize) -> (r: String)
    requires
        1 <= n <= path@.len(),
    ensures
        r@ == path_key(texts(path@).subrange(0, n as int)),
{
    let ghost ps = texts(path@);
    let mut key = path[0].clone();
    let mut i: usize = 1;
    proof {
        assert(ps.subrange(0, 1).subrange(1, 1) =~= Seq::<Seq<char>>::empty());
    }
    while i < n
        invariant
            1 <= i <= n <= path@.len(),
            ps == texts(path@),
            key@ == join(ps[0], ps.subrange(1, i as int)),
        decreases n - i,
    {
        proof {
            reveal_strlit("/");
        }
        key = key.concat("/").concat(path[i].as_str());
        proof {
            let s = ps.subrange(1, i + 1);
            assert(s.drop_last() =~= ps.subrange(1, i as int));
            assert(s.last() == path@[i as int]@);
            assert("/"@ =~= seq!['/']);
            assert(key@ =~= under(join(ps[0], ps.subrange(1, i as int)), path@[i as int]@));
        }
        i = i + 1;
    }
    proof {
        let t = ps.subrange(0, n as int);
        assert(t.subrange(1, t.len() as int) =~= ps.subrange(1, n as int));
    }
    key
}

/// Deletes the subtree at `path` (host first, then segments): every key reached from it
/// through `children` goes, and the last segment leaves the children of its parent (the
/// root for a host). An absent key changes nothing. Returns how many endpoints were removed.
pub fn delete_node(store: &mut NodeMap, path: &Vec<String>) -> (r: usize)
    requires
        old(store).wf(),
        path@.len() >= 1,
    ensures
        final(store).wf(),
        r == endpoint_keys(old(store)@, path_key(texts(path@))).len(),
        final(store)@ == deleted(old(store)@, texts(path@)),
{
    let ghost m = store@;
    let ghost ps = texts(path@);
    let n = path.len();
    let key = join_path(path, n);
    assert(ps.subrange(0, n as int) =~= ps);
    if !store.contains(key.as_str()) {
        proof {
            assert(endpoint_keys(m, key@) =~= Set::empty()) by {
                assert forall|k: Seq<char>| !#[trigger] subtree(m, key@).contains(k) by {
                    if reachable(m, key@, k) {
                        let p = choose|p: Seq<Seq<char>>| #[trigger] is_path(m, p) && p[0] == key@ && p.last() == k;
                    }
                }
            }
        }
        return 0;
    }
    let keys = collect_subtree(store, key.as_str());
    let ghost ks = texts(keys@);
    proof {
        assert forall|i: int| 0 <= i < ks.len() implies m.contains_key(#[trigger] ks[i]) by {
            assert(ks.to_set().contains(ks[i]));
            assert(subtree(m, key@).contains(ks[i]));
            let p = choose|p: Seq<Seq<char>>| #[trigger] is_path(m, p) && p[0] == key@ && p.last() == ks[i];
            if p.len() > 1 {
                let i0 = p.len() - 2;
                assert(step(m, p[i0], p[i0 + 1]));
            }
        }
        lemma_endpoint_count(m, ks, key@, false);
    }
    let count = count_endpoints(store, &keys);
    let mut doomed = NodeMap::new();
    let mut j: usize = 0;
    while j < keys.len()
        invariant
            doomed.wf(),
            ks == texts(keys@),
            j <= keys@.len(),
            doomed@.dom() == ks.subrange(0, j as int).to_set(),
        decreases keys@.len() - j,
    {
        doomed.insert(keys[j].as_str(), NodeValue::new());
        proof {
            let a = ks.subrange(0, j + 1);
            let b = ks.subrange(0, j as int);
            assert(a.to_set() =~= b.to_set().insert(ks[j as int])) by {
                assert forall|x: Seq<char>| a.to_set().contains(x) implies b.to_set().insert(ks[j as int]).contains(x) by {
                    let i = choose|i: int| 0 <= i < a.len() && a[i] == x;
                    if i < j {
                        assert(b[i] == x);
                    }
                }
                assert forall|x: Seq<char>| b.to_set().contains(x) implies a.to_set().contains(x) by {
                    let i = choose|i: int| 0 <= i < b.len() && b[i] == x;
                    assert(a[i] == x);
                }
                assert(a[j as int] == ks[j as int]);
            }
            assert(doomed@.dom() =~= a.to_set());
        }
        j = j + 1;
    }
    assert(ks.subrange(0, ks.len() as int) =~= ks);
    *store = store.without(&doomed);
    assert(store@ =~= m.remove_keys(ks.to_set()));
    let parent = if n == 1 {
        proof {
            reveal_strlit("__ROOT__");
            assert("__ROOT__"@ =~= root_key());
        }
        "__ROOT__".to_owned()
    } else {
        let p = join_path(path, n - 1);
        assert(ps.subrange(0, n - 1) =~= ps.drop_last());
        p
    };
    let seg = &path[n - 1];
    let update = match store.get(parent.as_str()) {
        Some(pn) => {
            if pn.has_child(seg.as_str()) {
                let mut nv = pn.duplicate();
                nv.remove_child(seg.as_str());
                Some(nv)
            } else {
                None
            }
        },
        None => None,
    };
    match update {
        Some(nv) => {
            store.insert(parent.as_str(), nv);
        },
        None => {},
    }
    proof {
        assert(ps.last() == seg@);
        assert(store@ =~= deleted(m, ps));
    }
    count
}

} // verus!
