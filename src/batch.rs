use vstd::prelude::*;
use crate::ingest::{UrlView, candidates_urls, count_after, ingest_all, ingest_line, ingest_ops};
use crate::laws::{http, lemma_closed_form, lemma_ingest_one_scheme, records_only, web_ops};
use crate::node::{NodeValue, NodeView, empty_view, https, merge_view, sticky};
use crate::node_map::{NodeMap, Op, apply_op, apply_ops, lemma_apply_ops_concat, merged_map, node_of, root_key};

verus! {

/// Entries the cache may reach before it is merged into the store.
pub const BATCH_SIZE: usize = 10000;

/// The store with which ingestion starts: an empty root record.
pub open spec fn root_only() -> Map<Seq<char>, NodeView> {
    map![root_key() => empty_view()]
}

/// The URLs of all lines, in order.
pub open spec fn all_urls(lines: Seq<Seq<char>>) -> Seq<UrlView>
    decreases lines.len(),
{
    if lines.len() == 0 {
        Seq::empty()
    } else {
        all_urls(lines.drop_last()) + candidates_urls(lines.last())
    }
}

/// The updates of each URL in order.
pub open spec fn all_ops(us: Seq<UrlView>) -> Seq<Op>
    decreases us.len(),
{
    if us.len() == 0 {
        Seq::empty()
    } else {
        all_ops(us.drop_last()) + ingest_ops(us.last())
    }
}

pub open spec fn effect(n: NodeView, op: Op) -> NodeView {
    match op {
        Op::AddChild(_, c) => NodeView { children: n.children.insert(c), ..n },
        Op::Scheme(_, s) => NodeView { scheme: sticky(n.scheme, s), ..n },
        Op::Endpoint(_, s) => NodeView { is_endpoint: true, scheme: sticky(n.scheme, s), ..n },
    }
}

proof fn lemma_effect_merge(x: NodeView, y: NodeView, op: Op)
    ensures
        effect(merge_view(x, y), op) == merge_view(x, effect(y, op)),
{
    match op {
        Op::AddChild(_, c) => {
            assert(x.children.union(y.children).insert(c) =~= x.children.union(y.children.insert(c)));
        },
        _ => {},
    }
}

proof fn lemma_merge_empty(x: NodeView)
    ensures
        merge_view(x, empty_view()) == x,
        merge_view(empty_view(), x) == x,
{
    assert(x.children.union(Set::empty()) =~= x.children);
    assert(Set::<Seq<char>>::empty().union(x.children) =~= x.children);
}

/// Applying updates to a store gives what merging their effect on an empty cache into the
/// store gives.
pub proof fn lemma_merge_ops(s: Map<Seq<char>, NodeView>, ops: Seq<Op>)
    ensures
        apply_ops(s, ops) == merged_map(s, apply_ops(Map::empty(), ops)),
    decreases ops.len(),
{
    if ops.len() == 0 {
        assert forall|k: Seq<char>| s.contains_key(k) implies merged_map(s, Map::empty())[k] == s[k] by {}
        assert(merged_map(s, Map::empty()) =~= s);
    } else {
        let pre = ops.drop_last();
        let o = ops.last();
        lemma_merge_ops(s, pre);
        let b = apply_ops(Map::<Seq<char>, NodeView>::empty(), pre);
        let lhs = apply_op(merged_map(s, b), o);
        let rhs = merged_map(s, apply_op(b, o));
        assert forall|k: Seq<char>| lhs.contains_key(k) implies lhs[k] == rhs[k] by {
            let t = match o {
                Op::AddChild(t, _) => t,
                Op::Scheme(t, _) => t,
                Op::Endpoint(t, _) => t,
            };
            if k == t {
                let y = node_of(b, t);
                lemma_effect_merge(node_of(s, t), y, o);
                lemma_merge_empty(node_of(s, t));
                assert(node_of(merged_map(s, b), t) == merge_view(node_of(s, t), y));
                assert(lhs[k] == effect(merge_view(node_of(s, t), y), o));
            }
        }
        assert(lhs =~= rhs);
    }
}

proof fn lemma_ingest_all_ops(m: Map<Seq<char>, NodeView>, us: Seq<UrlView>)
    ensures
        ingest_all(m, us) == apply_ops(m, all_ops(us)),
    decreases us.len(),
{
    if us.len() > 0 {
        lemma_ingest_all_ops(m, us.drop_last());
        lemma_apply_ops_concat(m, all_ops(us.drop_last()), ingest_ops(us.last()));
    }
}

proof fn lemma_ingest_all_concat(m: Map<Seq<char>, NodeView>, a: Seq<UrlView>, b: Seq<UrlView>)
    ensures
        ingest_all(m, a + b) == ingest_all(ingest_all(m, a), b),
    decreases b.len(),
{
    if b.len() == 0 {
        assert(a + b =~= a);
    } else {
        assert((a + b).drop_last() =~= a + b.drop_last());
        lemma_ingest_all_concat(m, a, b.drop_last());
    }
}

/// Merging the cache built from some URLs into a store gives the store with those URLs
/// folded in.
pub proof fn lemma_flush(s: Map<Seq<char>, NodeView>, us: Seq<UrlView>)
    ensures
        merged_map(s, ingest_all(Map::empty(), us)) == ingest_all(s, us),
{
    lemma_ingest_all_ops(s, us);
    lemma_ingest_all_ops(Map::empty(), us);
    lemma_merge_ops(s, all_ops(us));
}

pub fn root_store() -> (r: NodeMap)
    ensures
        r.wf(),
        r@ == root_only(),
{
    let mut r = NodeMap::new();
    proof {
        reveal_strlit("__ROOT__");
        assert("__ROOT__"@ =~= root_key());
    }
    r.insert("__ROOT__", NodeValue::new());
    assert(r@ =~= root_only());
    r
}

/// Whether the cache has reached the size at which it must be merged into the store.
pub fn needs_flush(cache: &NodeMap) -> (r: bool)
    requires
        cache.wf(),
    ensures
        r == (cache@.dom().len() >= BATCH_SIZE),
{
    cache.len() >= BATCH_SIZE
}

/// Builds the index of the URLs in `lines`: each line goes into a cache, which is merged
/// into the store whenever it holds `BATCH_SIZE` entries, and once more at the end. The
/// store starts with an empty root record. Returns the store and the number of URLs with
/// a host.
pub fn build_index(lines: &Vec<String>) -> (r: (NodeMap, usize))
    ensures
        r.0.wf(),
        r.0@ == ingest_all(root_only(), all_urls(lines@.map_values(|l: String| l@))),
        r.1 == count_after(0, all_urls(lines@.map_values(|l: String| l@))),
{
    let ghost ls = lines@.map_values(|l: String| l@);
    let mut store = root_store();
    let mut cache = NodeMap::new();
    let mut count: usize = 0;
    let ghost mut pending: Seq<UrlView> = Seq::empty();
    let mut i: usize = 0;
    proof {
        assert(ls.subrange(0, 0) =~= Seq::<Seq<char>>::empty());
    }
    while i < lines.len()
        invariant
            store.wf(),
            cache.wf(),
            ls == lines@.map_values(|l: String| l@),
            i <= lines@.len(),
            cache@ == ingest_all(Map::empty(), pending),
            ingest_all(store@, pending) == ingest_all(root_only(), all_urls(ls.subrange(0, i as int))),
            count == count_after(0, all_urls(ls.subrange(0, i as int))),
        decreases lines@.len() - i,
    {
        let ghost before = all_urls(ls.subrange(0, i as int));
        let ghost more = candidates_urls(ls[i as int]);
        proof {
            let t = ls.subrange(0, i + 1);
            assert(t.drop_last() =~= ls.subrange(0, i as int));
            assert(t.last() == lines@[i as int]@);
        }
        ingest_line(lines[i].as_str(), &mut count, &mut cache);
        proof {
            lemma_ingest_all_concat(Map::empty(), pending, more);
            lemma_ingest_all_concat(store@, pending, more);
            lemma_ingest_all_concat(root_only(), before, more);
            lemma_count_concat(0, before, more);
            pending = pending + more;
        }
        if needs_flush(&cache) {
            proof {
                lemma_flush(store@, pending);
            }
            store.merge_batch(&cache);
            cache = NodeMap::new();
            proof {
                pending = Seq::empty();
            }
        }
        i = i + 1;
    }
    proof {
        lemma_flush(store@, pending);
        assert(ls.subrange(0, lines@.len() as int) =~= ls);
    }
    store.merge_batch(&cache);
    (store, count)
}

proof fn lemma_count_concat(c: usize, a: Seq<UrlView>, b: Seq<UrlView>)
    ensures
        count_after(c, a + b) == count_after(count_after(c, a), b),
    decreases b.len(),
{
    if b.len() == 0 {
        assert(a + b =~= a);
    } else {
        assert((a + b).drop_last() =~= a + b.drop_last());
        lemma_count_concat(c, a, b.drop_last());
    }
}

proof fn lemma_hostless(m: Map<Seq<char>, NodeView>, c: usize, us: Seq<UrlView>)
    requires
        forall|j: int| 0 <= j < us.len() ==> (#[trigger] us[j]).host is None,
    ensures
        ingest_all(m, us) == m,
        count_after(c, us) == c,
    decreases us.len(),
{
    if us.len() > 0 {
        let d = us.drop_last();
        assert forall|j: int| 0 <= j < d.len() implies (#[trigger] d[j]).host is None by {
            assert(d[j] == us[j]);
        }
        lemma_hostless(m, c, d);
        assert(us[us.len() - 1].host is None);
        assert(ingest_ops(us.last()) =~= Seq::<Op>::empty());
    }
}

/// A source in which no URL has a host yields a store holding only the empty root record,
/// and a count of zero.
pub proof fn lemma_no_urls(lines: Seq<Seq<char>>)
    requires
        forall|j: int| 0 <= j < all_urls(lines).len() ==> (#[trigger] all_urls(lines)[j]).host is None,
    ensures
        ingest_all(root_only(), all_urls(lines)) == root_only(),
        count_after(0, all_urls(lines)) == 0,
{
    lemma_hostless(root_only(), 0, all_urls(lines));
}

} // verus!

verus! {

/// Every URL's scheme is `http` or `https`.
pub open spec fn web_urls(us: Seq<UrlView>) -> bool {
    forall|i: int| 0 <= i < us.len() ==> (#[trigger] us[i]).scheme == http() || us[i].scheme == https()
}

proof fn lemma_all_ops_has(us: Seq<UrlView>, o: Op)
    ensures
        all_ops(us).contains(o) <==> exists|i: int| 0 <= i < us.len() && #[trigger] ingest_ops(us[i]).contains(o),
    decreases us.len(),
{
    if us.len() > 0 {
        let d = us.drop_last();
        lemma_all_ops_has(d, o);
        let x = all_ops(d);
        let y = ingest_ops(us.last());
        if (x + y).contains(o) {
            let j = choose|j: int| 0 <= j < (x + y).len() && (x + y)[j] == o;
            if j < x.len() {
                assert(x[j] == o);
                let i = choose|i: int| 0 <= i < d.len() && #[trigger] ingest_ops(d[i]).contains(o);
                assert(us[i] == d[i]);
            } else {
                assert(y[j - x.len()] == o);
                assert(ingest_ops(us[us.len() - 1]).contains(o));
            }
        }
        if exists|i: int| 0 <= i < us.len() && #[trigger] ingest_ops(us[i]).contains(o) {
            let i = choose|i: int| 0 <= i < us.len() && #[trigger] ingest_ops(us[i]).contains(o);
            if i < us.len() - 1 {
                assert(d[i] == us[i]);
                assert(x.contains(o));
                let j = choose|j: int| 0 <= j < x.len() && x[j] == o;
                assert((x + y)[j] == o);
            } else {
                let j = choose|j: int| 0 <= j < y.len() && y[j] == o;
                assert((x + y)[x.len() + j] == o);
            }
        }
    }
}

proof fn lemma_web_ops(us: Seq<UrlView>)
    requires
        web_urls(us),
    ensures
        web_ops(all_ops(us)),
{
    let ops = all_ops(us);
    assert forall|j: int| 0 <= j < ops.len() implies records_only(#[trigger] ops[j], http()) || records_only(ops[j], https()) by {
        assert(ops.contains(ops[j]));
        lemma_all_ops_has(us, ops[j]);
        let i = choose|i: int| 0 <= i < us.len() && #[trigger] ingest_ops(us[i]).contains(ops[j]);
        lemma_ingest_one_scheme(us[i]);
        let k = choose|k: int| 0 <= k < ingest_ops(us[i]).len() && ingest_ops(us[i])[k] == ops[j];
        assert(records_only(ingest_ops(us[i])[k], us[i].scheme));
    }
}

/// Folding in, at any position, more URLs that each occur among the others changes nothing,
/// when every scheme is `http` or `https`.
pub proof fn lemma_repeated_urls(m: Map<Seq<char>, NodeView>, p: Seq<UrlView>, v: Seq<UrlView>, q: Seq<UrlView>)
    requires
        web_urls(p + q),
        forall|i: int| 0 <= i < v.len() ==> (p + q).contains(#[trigger] v[i]),
    ensures
        ingest_all(m, p + v + q) == ingest_all(m, p + q),
{
    let a = p + v + q;
    let b = p + q;
    assert forall|x: UrlView| a.contains(x) <==> b.contains(x) by {
        if a.contains(x) {
            let i = choose|i: int| 0 <= i < a.len() && a[i] == x;
            if i < p.len() {
                assert(b[i] == x);
            } else if i < p.len() + v.len() {
                assert(v[i - p.len()] == x);
            } else {
                assert(b[i - v.len()] == x);
            }
        }
        if b.contains(x) {
            let i = choose|i: int| 0 <= i < b.len() && b[i] == x;
            if i < p.len() {
                assert(a[i] == x);
            } else {
                assert(a[i + v.len()] == x);
            }
        }
    }
    assert(web_urls(a)) by {
        assert forall|i: int| 0 <= i < a.len() implies (#[trigger] a[i]).scheme == http() || a[i].scheme == https() by {
            assert(a.contains(a[i]));
            let j = choose|j: int| 0 <= j < b.len() && b[j] == a[i];
        }
    }
    assert(all_ops(a).to_set() =~= all_ops(b).to_set()) by {
        assert forall|o: Op| all_ops(a).to_set().contains(o) <==> all_ops(b).to_set().contains(o) by {
            lemma_all_ops_has(a, o);
            lemma_all_ops_has(b, o);
            if exists|i: int| 0 <= i < a.len() && #[trigger] ingest_ops(a[i]).contains(o) {
                let i = choose|i: int| 0 <= i < a.len() && #[trigger] ingest_ops(a[i]).contains(o);
                assert(a.contains(a[i]));
                let j = choose|j: int| 0 <= j < b.len() && b[j] == a[i];
                assert(ingest_ops(b[j]).contains(o));
            }
            if exists|i: int| 0 <= i < b.len() && #[trigger] ingest_ops(b[i]).contains(o) {
                let i = choose|i: int| 0 <= i < b.len() && #[trigger] ingest_ops(b[i]).contains(o);
                assert(b.contains(b[i]));
                let j = choose|j: int| 0 <= j < a.len() && a[j] == b[i];
                assert(ingest_ops(a[j]).contains(o));
            }
        }
    }
    lemma_ingest_all_ops(m, a);
    lemma_ingest_all_ops(m, b);
    lemma_web_ops(a);
    lemma_web_ops(b);
    lemma_closed_form(m, all_ops(a));
    lemma_closed_form(m, all_ops(b));
}

proof fn lemma_all_urls_concat(a: Seq<Seq<char>>, b: Seq<Seq<char>>)
    ensures
        all_urls(a + b) == all_urls(a) + all_urls(b),
    decreases b.len(),
{
    if b.len() == 0 {
        assert(a + b =~= a);
        assert(all_urls(a) + all_urls(b) =~= all_urls(a));
    } else {
        assert((a + b).drop_last() =~= a + b.drop_last());
        lemma_all_urls_concat(a, b.drop_last());
        assert(all_urls(a) + all_urls(b) =~= all_urls(a) + all_urls(b.drop_last()) + candidates_urls(b.last()));
    }
}

proof fn lemma_line_urls_in(lines: Seq<Seq<char>>, l: Seq<char>)
    requires
        lines.contains(l),
    ensures
        forall|i: int| 0 <= i < candidates_urls(l).len() ==> all_urls(lines).contains(#[trigger] candidates_urls(l)[i]),
    decreases lines.len(),
{
    let d = lines.drop_last();
    let x = all_urls(d);
    let y = candidates_urls(lines.last());
    assert forall|i: int| 0 <= i < candidates_urls(l).len() implies all_urls(lines).contains(#[trigger] candidates_urls(l)[i]) by {
        let u = candidates_urls(l)[i];
        if lines.last() == l {
            assert((x + y)[x.len() + i] == u);
        } else {
            let j = choose|j: int| 0 <= j < lines.len() && lines[j] == l;
            assert(d[j] == l);
            lemma_line_urls_in(d, l);
            assert(x.contains(u));
            let k = choose|k: int| 0 <= k < x.len() && x[k] == u;
            assert((x + y)[k] == u);
        }
    }
}

proof fn lemma_one_line(l: Seq<char>)
    ensures
        all_urls(seq![l]) == candidates_urls(l),
{
    assert(seq![l].drop_last() =~= Seq::<Seq<char>>::empty());
    assert(seq![l].last() == l);
    assert(all_urls(Seq::<Seq<char>>::empty()) == Seq::<UrlView>::empty());
    assert(Seq::<UrlView>::empty() + candidates_urls(l) =~= candidates_urls(l));
    assert(all_urls(seq![l]) =~= candidates_urls(l));
}

/// A source with one of its lines repeated once more, at any position, builds the same
/// store, when every URL's scheme is `http` or `https`.
pub proof fn lemma_repeated_line(a: Seq<Seq<char>>, l: Seq<char>, b: Seq<Seq<char>>)
    requires
        (a + b).contains(l),
        web_urls(all_urls(a + b)),
    ensures
        ingest_all(root_only(), all_urls(a + seq![l] + b)) == ingest_all(root_only(), all_urls(a + b)),
{
    lemma_all_urls_concat(a + seq![l], b);
    lemma_all_urls_concat(a, seq![l]);
    lemma_all_urls_concat(a, b);
    lemma_one_line(l);
    lemma_line_urls_in(a + b, l);
    lemma_repeated_urls(root_only(), all_urls(a), candidates_urls(l), all_urls(b));
}

} // verus!

verus! {

/// How many of the URLs have a host.
pub open spec fn hosted(us: Seq<UrlView>) -> nat
    decreases us.len(),
{
    if us.len() == 0 {
        0
    } else if us.last().host is Some {
        hosted(us.drop_last()) + 1
    } else {
        hosted(us.drop_last())
    }
}

/// The count goes up by one for each URL with a host, and stops at the largest `usize`.
pub proof fn lemma_count_is_hosted(c: usize, us: Seq<UrlView>)
    ensures
        count_after(c, us) == if c + hosted(us) <= usize::MAX {
            (c + hosted(us)) as usize
        } else {
            usize::MAX
        },
    decreases us.len(),
{
    if us.len() > 0 {
        lemma_count_is_hosted(c, us.drop_last());
    }
}

proof fn lemma_hosted_concat(a: Seq<UrlView>, b: Seq<UrlView>)
    ensures
        hosted(a + b) == hosted(a) + hosted(b),
    decreases b.len(),
{
    if b.len() == 0 {
        assert(a + b =~= a);
    } else {
        assert((a + b).drop_last() =~= a + b.drop_last());
        lemma_hosted_concat(a, b.drop_last());
    }
}

/// Repeating a line once more adds the number of its URLs with a host to the count.
pub proof fn lemma_repeated_line_count(a: Seq<Seq<char>>, l: Seq<char>, b: Seq<Seq<char>>)
    ensures
        hosted(all_urls(a + seq![l] + b)) == hosted(all_urls(a + b)) + hosted(candidates_urls(l)),
{
    lemma_all_urls_concat(a + seq![l], b);
    lemma_all_urls_concat(a, seq![l]);
    lemma_all_urls_concat(a, b);
    lemma_one_line(l);
    lemma_hosted_concat(all_urls(a) + candidates_urls(l), all_urls(b));
    lemma_hosted_concat(all_urls(a), candidates_urls(l));
    lemma_hosted_concat(all_urls(a), all_urls(b));
}

} // verus!
