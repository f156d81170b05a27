use vstd::prelude::*;
use crate::ingest::{UrlView, endpoint_key, ingest, ingest_ops, walk_ops};
use crate::node::{NodeView, https, merge_view, sticky};
use crate::consistency::target;
use crate::node_map::{Op, apply_op, apply_ops, merged_map, node_of};

verus! {

/// `m` already reflects `op`: applying it changes nothing.
pub open spec fn holds(m: Map<Seq<char>, NodeView>, op: Op) -> bool {
    match op {
        Op::AddChild(k, c) => m.contains_key(k) && m[k].children.contains(c),
        Op::Scheme(k, s) => m.contains_key(k) && sticky(m[k].scheme, s) == m[k].scheme,
        Op::Endpoint(k, s) => m.contains_key(k) && m[k].is_endpoint && sticky(m[k].scheme, s)
            == m[k].scheme,
    }
}

/// The scheme that `op` records, if any, is `s`.
pub open spec fn records_only(op: Op, s: Seq<char>) -> bool {
    match op {
        Op::AddChild(_, _) => true,
        Op::Scheme(_, t) => t == s,
        Op::Endpoint(_, t) => t == s,
    }
}

/// Every scheme that `ops` records is `s`.
pub open spec fn one_scheme(ops: Seq<Op>, s: Seq<char>) -> bool {
    forall|i: int| 0 <= i < ops.len() ==> records_only(#[trigger] ops[i], s)
}

proof fn lemma_holds_noop(m: Map<Seq<char>, NodeView>, op: Op)
    requires
        holds(m, op),
    ensures
        apply_op(m, op) == m,
{
    match op {
        Op::AddChild(k, c) => {
            let n = m[k];
            assert(n.children.insert(c) =~= n.children);
            assert(NodeView { children: n.children.insert(c), ..n } == n);
            assert(m.insert(k, n) =~= m);
        },
        Op::Scheme(k, s) => {
            assert(m.insert(k, m[k]) =~= m);
        },
        Op::Endpoint(k, s) => {
            assert(m.insert(k, m[k]) =~= m);
        },
    }
}

proof fn lemma_holds_kept(m: Map<Seq<char>, NodeView>, o1: Op, o2: Op, s: Seq<char>)
    requires
        holds(m, o1),
        records_only(o1, s),
        records_only(o2, s),
    ensures
        holds(apply_op(m, o2), o1),
{
}

proof fn lemma_holds_after(m: Map<Seq<char>, NodeView>, o: Op)
    ensures
        holds(apply_op(m, o), o),
{
}

proof fn lemma_all_hold(m: Map<Seq<char>, NodeView>, ops: Seq<Op>, s: Seq<char>)
    requires
        one_scheme(ops, s),
    ensures
        forall|i: int| 0 <= i < ops.len() ==> holds(apply_ops(m, ops), #[trigger] ops[i]),
    decreases ops.len(),
{
    if ops.len() > 0 {
        let pre = ops.drop_last();
        let o = ops.last();
        assert(one_scheme(pre, s)) by {
            assert forall|i: int| 0 <= i < pre.len() implies records_only(#[trigger] pre[i], s) by {
                assert(pre[i] == ops[i]);
            }
        }
        lemma_all_hold(m, pre, s);
        let mm = apply_ops(m, pre);
        assert forall|i: int| 0 <= i < ops.len() implies holds(apply_ops(m, ops), #[trigger] ops[i]) by {
            if i < ops.len() - 1 {
                assert(pre[i] == ops[i]);
                assert(records_only(ops[ops.len() - 1], s));
                lemma_holds_kept(mm, ops[i], o, s);
            } else {
                lemma_holds_after(mm, o);
            }
        }
    }
}

proof fn lemma_noop_all(m: Map<Seq<char>, NodeView>, ops: Seq<Op>)
    requires
        forall|i: int| 0 <= i < ops.len() ==> holds(m, #[trigger] ops[i]),
    ensures
        apply_ops(m, ops) == m,
    decreases ops.len(),
{
    if ops.len() > 0 {
        let pre = ops.drop_last();
        assert forall|i: int| 0 <= i < pre.len() implies holds(m, #[trigger] pre[i]) by {
            assert(pre[i] == ops[i]);
        }
        lemma_noop_all(m, pre);
        assert(holds(m, ops[ops.len() - 1]));
        lemma_holds_noop(m, ops.last());
    }
}

proof fn lemma_walk_links(h: Seq<char>, segs: Seq<Seq<char>>)
    ensures
        forall|i: int| 0 <= i < walk_ops(h, segs).len() ==> #[trigger] walk_ops(h, segs)[i] is AddChild,
    decreases segs.len(),
{
    if segs.len() > 0 {
        lemma_walk_links(h, segs.drop_last());
    }
}

pub proof fn lemma_ingest_one_scheme(u: UrlView)
    ensures
        one_scheme(ingest_ops(u), u.scheme),
{
    if let Some(h) = u.host {
        let segs = crate::ingest::kept_segments(u.segments);
        if segs.len() > 0 {
            lemma_walk_links(h, segs.drop_last());
        }
    }
}

/// Folding the same URL in twice leaves the index as folding it in once.
pub proof fn lemma_ingest_idempotent(m: Map<Seq<char>, NodeView>, u: UrlView)
    ensures
        ingest(ingest(m, u), u) == ingest(m, u),
{
    let ops = ingest_ops(u);
    lemma_ingest_one_scheme(u);
    lemma_all_hold(m, ops, u.scheme);
    lemma_noop_all(ingest(m, u), ops);
}

proof fn lemma_https_kept(m: Map<Seq<char>, NodeView>, ops: Seq<Op>, k: Seq<char>)
    requires
        node_of(m, k).scheme == Some(https()),
    ensures
        node_of(apply_ops(m, ops), k).scheme == Some(https()),
    decreases ops.len(),
{
    if ops.len() > 0 {
        lemma_https_kept(m, ops.drop_last(), k);
    }
}

/// Once a key has recorded `https`, folding in any URL keeps it.
pub proof fn lemma_https_sticky(m: Map<Seq<char>, NodeView>, u: UrlView, k: Seq<char>)
    requires
        node_of(m, k).scheme == Some(https()),
    ensures
        node_of(ingest(m, u), k).scheme == Some(https()),
{
    lemma_https_kept(m, ingest_ops(u), k);
}

/// After folding in a URL with a host, its endpoint key is an endpoint whose scheme is the
/// URL's, unless `https` was recorded there already.
pub proof fn lemma_ingest_endpoint(m: Map<Seq<char>, NodeView>, u: UrlView)
    requires
        u.host is Some,
    ensures
        ingest(m, u).contains_key(endpoint_key(u)),
        ingest(m, u)[endpoint_key(u)].is_endpoint,
        ingest(m, u)[endpoint_key(u)].scheme == sticky(
            node_of(apply_ops(m, ingest_ops(u).drop_last()), endpoint_key(u)).scheme,
            u.scheme,
        ),
{
}

/// A URL seen over `http`, then `https`, then `http` again at the same endpoint keeps the
/// scheme `https`.
pub proof fn lemma_scheme_stickiness(
    m: Map<Seq<char>, NodeView>,
    first: UrlView,
    second: UrlView,
    third: UrlView,
)
    requires
        second.host is Some,
        second.scheme == https(),
    ensures
        node_of(ingest(ingest(ingest(m, first), second), third), endpoint_key(second)).scheme
            == Some(https()),
{
    let m1 = ingest(m, first);
    lemma_ingest_endpoint(m1, second);
    lemma_https_sticky(ingest(m1, second), third, endpoint_key(second));
}

} // verus!

verus! {

pub open spec fn http() -> Seq<char> {
    seq!['h', 't', 't', 'p']
}

/// Every scheme that `ops` records is `http` or `https`.
pub open spec fn web_ops(ops: Seq<Op>) -> bool {
    forall|i: int| 0 <= i < ops.len() ==> records_only(#[trigger] ops[i], http()) || records_only(ops[i], https())
}

/// `ops` record scheme `s` for key `k`.
pub open spec fn records_at(ops: Set<Op>, k: Seq<char>, s: Seq<char>) -> bool {
    ops.contains(Op::Scheme(k, s)) || ops.contains(Op::Endpoint(k, s))
}

pub open spec fn closed_scheme(old: Option<Seq<char>>, ops: Set<Op>, k: Seq<char>) -> Option<Seq<char>> {
    if old == Some(https()) || records_at(ops, k, https()) {
        Some(https())
    } else if records_at(ops, k, http()) {
        Some(http())
    } else {
        old
    }
}

/// The index after applying a set of updates whose schemes are `http` or `https`, in any
/// order.
pub open spec fn closed(m: Map<Seq<char>, NodeView>, ops: Set<Op>) -> Map<Seq<char>, NodeView> {
    Map::new(
        |k: Seq<char>| m.contains_key(k) || exists|o: Op| #[trigger] ops.contains(o) && target(o) == k,
        |k: Seq<char>|
            NodeView {
                is_endpoint: node_of(m, k).is_endpoint || exists|s: Seq<char>| #[trigger] ops.contains(Op::Endpoint(k, s)),
                children: node_of(m, k).children.union(Set::new(|c: Seq<char>| ops.contains(Op::AddChild(k, c)))),
                scheme: closed_scheme(node_of(m, k).scheme, ops, k),
            },
    )
}

proof fn lemma_closed_empty(m: Map<Seq<char>, NodeView>)
    ensures
        closed(m, Set::empty()) == m,
{
    let c = closed(m, Set::empty());
    assert forall|k: Seq<char>| c.contains_key(k) implies c[k] == m[k] by {
        assert(m[k].children.union(Set::new(|x: Seq<char>| Set::<Op>::empty().contains(Op::AddChild(k, x)))) =~= m[k].children);
    }
    assert(c =~= m);
}

proof fn lemma_closed_step(m: Map<Seq<char>, NodeView>, ops: Set<Op>, o: Op)
    requires
        records_only(o, http()) || records_only(o, https()),
    ensures
        apply_op(closed(m, ops), o) == closed(m, ops.insert(o)),
{
    let a = apply_op(closed(m, ops), o);
    let b = closed(m, ops.insert(o));
    let t = target(o);
    assert forall|k: Seq<char>| a.contains_key(k) <==> b.contains_key(k) by {
        if k == t {
            assert(ops.insert(o).contains(o) && target(o) == k);
        }
        if closed(m, ops).contains_key(k) && !m.contains_key(k) {
            let w = choose|w: Op| #[trigger] ops.contains(w) && target(w) == k;
            assert(ops.insert(o).contains(w));
        }
        if b.contains_key(k) && !m.contains_key(k) && k != t {
            let w = choose|w: Op| #[trigger] ops.insert(o).contains(w) && target(w) == k;
            assert(ops.contains(w));
            assert(closed(m, ops).contains_key(k));
        }
    }
    assert forall|k: Seq<char>| a.contains_key(k) implies a[k] == b[k] by {
        let n = node_of(m, k);
        let ins = ops.insert(o);
        assert(n.children.union(Set::new(|c: Seq<char>| ins.contains(Op::AddChild(k, c)))) =~= if o == Op::AddChild(k, o->AddChild_1) {
            n.children.union(Set::new(|c: Seq<char>| ops.contains(Op::AddChild(k, c)))).insert(o->AddChild_1)
        } else {
            n.children.union(Set::new(|c: Seq<char>| ops.contains(Op::AddChild(k, c))))
        });
        if k == t {
            assert(closed(m, ops).contains_key(k) ==> node_of(closed(m, ops), k) == closed(m, ops)[k]);
            if !closed(m, ops).contains_key(k) {
                assert(!m.contains_key(k));
                assert(n == crate::node::empty_view());
                assert(n.children.union(Set::new(|c: Seq<char>| ops.contains(Op::AddChild(k, c)))) =~= Set::empty());
                assert(!(exists|s: Seq<char>| #[trigger] ops.contains(Op::Endpoint(k, s)))) by {
                    if exists|s: Seq<char>| #[trigger] ops.contains(Op::Endpoint(k, s)) {
                        let s = choose|s: Seq<char>| #[trigger] ops.contains(Op::Endpoint(k, s));
                        assert(target(Op::Endpoint(k, s)) == k);
                    }
                }
                assert(!records_at(ops, k, https()) && !records_at(ops, k, http())) by {
                    assert(target(Op::Endpoint(k, https())) == k && target(Op::Scheme(k, https())) == k);
                    assert(target(Op::Endpoint(k, http())) == k && target(Op::Scheme(k, http())) == k);
                }
            }
            match o {
                Op::Endpoint(_, s) => {
                    assert(ins.contains(Op::Endpoint(k, s)));
                },
                _ => {
                    assert(!(o is Endpoint));
                    assert((exists|s: Seq<char>| #[trigger] ins.contains(Op::Endpoint(k, s))) == (exists|s: Seq<char>| #[trigger] ops.contains(Op::Endpoint(k, s)))) by {
                        if exists|s: Seq<char>| #[trigger] ins.contains(Op::Endpoint(k, s)) {
                            let s = choose|s: Seq<char>| #[trigger] ins.contains(Op::Endpoint(k, s));
                            assert(Op::Endpoint(k, s) != o);
                            assert(ops.contains(Op::Endpoint(k, s)));
                        }
                        if exists|s: Seq<char>| #[trigger] ops.contains(Op::Endpoint(k, s)) {
                            let s = choose|s: Seq<char>| #[trigger] ops.contains(Op::Endpoint(k, s));
                            assert(ins.contains(Op::Endpoint(k, s)));
                        }
                    }
                },
            }
        } else {
            assert((exists|s: Seq<char>| #[trigger] ins.contains(Op::Endpoint(k, s))) == (exists|s: Seq<char>| #[trigger] ops.contains(Op::Endpoint(k, s)))) by {
                if exists|s: Seq<char>| #[trigger] ins.contains(Op::Endpoint(k, s)) {
                    let s = choose|s: Seq<char>| #[trigger] ins.contains(Op::Endpoint(k, s));
                    assert(target(Op::Endpoint(k, s)) == k);
                    assert(ops.contains(Op::Endpoint(k, s)));
                }
                if exists|s: Seq<char>| #[trigger] ops.contains(Op::Endpoint(k, s)) {
                    let s = choose|s: Seq<char>| #[trigger] ops.contains(Op::Endpoint(k, s));
                    assert(ins.contains(Op::Endpoint(k, s)));
                }
            }
            assert(records_at(ins, k, https()) == records_at(ops, k, https()));
            assert(records_at(ins, k, http()) == records_at(ops, k, http()));
        }
    }
    assert(a =~= b);
}

pub proof fn lemma_closed_form(m: Map<Seq<char>, NodeView>, ops: Seq<Op>)
    requires
        web_ops(ops),
    ensures
        apply_ops(m, ops) == closed(m, ops.to_set()),
    decreases ops.len(),
{
    if ops.len() == 0 {
        assert(ops.to_set() =~= Set::empty());
        lemma_closed_empty(m);
    } else {
        let d = ops.drop_last();
        assert(web_ops(d)) by {
            assert forall|i: int| 0 <= i < d.len() implies records_only(#[trigger] d[i], http()) || records_only(d[i], https()) by {
                assert(d[i] == ops[i]);
            }
        }
        lemma_closed_form(m, d);
        assert(records_only(ops[ops.len() - 1], http()) || records_only(ops[ops.len() - 1], https()));
        lemma_closed_step(m, d.to_set(), ops.last());
        assert(ops.to_set() =~= d.to_set().insert(ops.last())) by {
            assert forall|x: Op| ops.to_set().contains(x) implies d.to_set().insert(ops.last()).contains(x) by {
                let i = choose|i: int| 0 <= i < ops.len() && ops[i] == x;
                if i < ops.len() - 1 {
                    assert(d[i] == x);
                }
            }
            assert forall|x: Op| d.to_set().contains(x) implies ops.to_set().contains(x) by {
                let i = choose|i: int| 0 <= i < d.len() && d[i] == x;
                assert(ops[i] == x);
            }
        }
    }
}

} // verus!

verus! {

proof fn lemma_https_recorded(m: Map<Seq<char>, NodeView>, ops: Seq<Op>, i: int, k: Seq<char>)
    requires
        0 <= i < ops.len(),
        ops[i] == Op::Scheme(k, https()) || ops[i] == Op::Endpoint(k, https()),
    ensures
        node_of(apply_ops(m, ops), k).scheme == Some(https()),
    decreases ops.len(),
{
    if i < ops.len() - 1 {
        assert(ops.drop_last()[i] == ops[i]);
        lemma_https_recorded(m, ops.drop_last(), i, k);
    }
}

/// Folding in a URL whose scheme is `https` records `https` for its host and its endpoint
/// key.
pub proof fn lemma_https_url(m: Map<Seq<char>, NodeView>, u: UrlView)
    requires
        u.host is Some,
        u.scheme == https(),
    ensures
        node_of(ingest(m, u), u.host->0).scheme == Some(https()),
        node_of(ingest(m, u), endpoint_key(u)).scheme == Some(https()),
{
    let ops = ingest_ops(u);
    lemma_https_recorded(m, ops, 1, u.host->0);
    lemma_ingest_endpoint(m, u);
}

/// Merging the same batch twice leaves the store as merging it once.
pub proof fn lemma_merge_idempotent(st: Map<Seq<char>, NodeView>, b: Map<Seq<char>, NodeView>)
    ensures
        merged_map(merged_map(st, b), b) == merged_map(st, b),
{
    let once = merged_map(st, b);
    let twice = merged_map(once, b);
    assert forall|k: Seq<char>| twice.contains_key(k) implies twice[k] == once[k] by {
        if b.contains_key(k) {
            let x = node_of(st, k);
            let y = b[k];
            assert(node_of(once, k) == merge_view(x, y));
            assert(x.children.union(y.children).union(y.children) =~= x.children.union(y.children));
        }
    }
    assert(twice =~= once);
}

} // verus!
