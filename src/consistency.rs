use vstd::prelude::*;
use crate::batch::root_only;
use crate::ingest::{UrlView, ingest, ingest_all, ingest_ops, join, kept_segments, suffix, under, walk_ops};
use crate::node::NodeView;
use crate::node_map::{Op, apply_op, apply_ops, merged_map, node_of, lemma_apply_ops_concat, lemma_apply_ops_push, root_key};
use crate::query::{child_key, deleted, exported_keys, is_path, parent_key, path_key, reachable, step, subtree};

verus! {

/// Some present key lists `k` among its children.
pub open spec fn has_link(m: Map<Seq<char>, NodeView>, k: Seq<char>) -> bool {
    exists|p: Seq<char>, c: Seq<char>|
        #[trigger] m.contains_key(p) && #[trigger] m[p].children.contains(c) && child_key(p, c) == k
}

/// Every present key but the root is listed among the children of a present key: the
/// host under the root, each further segment under the key before it.
pub open spec fn linked(m: Map<Seq<char>, NodeView>) -> bool {
    forall|k: Seq<char>| #[trigger] m.contains_key(k) && k != root_key() ==> has_link(m, k)
}

pub open spec fn target(op: Op) -> Seq<char> {
    match op {
        Op::AddChild(k, _) => k,
        Op::Scheme(k, _) => k,
        Op::Endpoint(k, _) => k,
    }
}

proof fn lemma_under_not_root(k: Seq<char>, c: Seq<char>)
    ensures
        under(k, c) != root_key(),
{
    if k.len() < 8 {
        assert(under(k, c)[k.len() as int] == '/');
        assert(root_key()[k.len() as int] != '/');
    } else {
        assert(under(k, c).len() > root_key().len());
    }
}

proof fn lemma_join_not_root(h: Seq<char>, segs: Seq<Seq<char>>)
    requires
        h != root_key(),
    ensures
        join(h, segs) != root_key(),
{
    if segs.len() > 0 {
        lemma_under_not_root(join(h, segs.drop_last()), segs.last());
    }
}

proof fn lemma_link_kept(m: Map<Seq<char>, NodeView>, op: Op, k: Seq<char>)
    requires
        has_link(m, k),
    ensures
        has_link(apply_op(m, op), k),
{
    let (p, c) = choose|p: Seq<char>, c: Seq<char>| #[trigger] m.contains_key(p) && #[trigger] m[p].children.contains(c) && child_key(p, c) == k;
    let m2 = apply_op(m, op);
    assert(m2.contains_key(p) && m2[p].children.contains(c));
}

proof fn lemma_op_linked(m: Map<Seq<char>, NodeView>, op: Op)
    requires
        linked(m),
        target(op) == root_key() || m.contains_key(target(op)) || has_link(m, target(op)),
    ensures
        linked(apply_op(m, op)),
{
    let m2 = apply_op(m, op);
    assert forall|k: Seq<char>| #[trigger] m2.contains_key(k) && k != root_key() implies has_link(m2, k) by {
        if m.contains_key(k) {
            lemma_link_kept(m, op, k);
        } else {
            assert(k == target(op));
            lemma_link_kept(m, op, k);
        }
    }
}

proof fn lemma_add_child_links(m: Map<Seq<char>, NodeView>, k: Seq<char>, c: Seq<char>)
    ensures
        has_link(apply_op(m, Op::AddChild(k, c)), child_key(k, c)),
{
    let m2 = apply_op(m, Op::AddChild(k, c));
    assert(m2.contains_key(k) && m2[k].children.contains(c));
}

proof fn lemma_walk_linked(m: Map<Seq<char>, NodeView>, h: Seq<char>, segs: Seq<Seq<char>>)
    requires
        linked(m),
        has_link(m, h),
        h != root_key(),
    ensures
        linked(apply_ops(m, walk_ops(h, segs))),
        has_link(apply_ops(m, walk_ops(h, segs)), join(h, segs)),
        has_link(apply_ops(m, walk_ops(h, segs)), h),
    decreases segs.len(),
{
    if segs.len() > 0 {
        let pre = segs.drop_last();
        lemma_walk_linked(m, h, pre);
        let mm = apply_ops(m, walk_ops(h, pre));
        let op = Op::AddChild(join(h, pre), segs.last());
        assert(walk_ops(h, segs).drop_last() =~= walk_ops(h, pre));
        lemma_op_linked(mm, op);
        lemma_add_child_links(mm, join(h, pre), segs.last());
        lemma_join_not_root(h, pre);
        lemma_link_kept(mm, op, h);
    }
}

/// Folding a URL into a consistent index keeps it consistent, unless its host is the root's
/// own key.
pub proof fn lemma_ingest_linked(m: Map<Seq<char>, NodeView>, u: UrlView)
    requires
        linked(m),
        u.host matches Some(h) ==> h != root_key(),
    ensures
        linked(ingest(m, u)),
{
    if let Some(h) = u.host {
        let s = u.scheme;
        let segs = kept_segments(u.segments);
        let sfx = suffix(u.query, u.fragment);
        let o1 = Op::AddChild(root_key(), h);
        let o2 = Op::Scheme(h, s);
        let base = seq![o1, o2];
        let m1 = apply_op(m, o1);
        lemma_op_linked(m, o1);
        lemma_add_child_links(m, root_key(), h);
        let m2 = apply_op(m1, o2);
        lemma_op_linked(m1, o2);
        lemma_link_kept(m1, o2, h);
        assert(apply_ops(m, base) == m2) by {
            lemma_apply_ops_push(m, Seq::empty(), o1);
            assert(Seq::<Op>::empty().push(o1) =~= seq![o1]);
            lemma_apply_ops_push(m, seq![o1], o2);
            assert(seq![o1].push(o2) =~= base);
        }
        if segs.len() > 0 {
            let parents = segs.drop_last();
            let p = join(h, parents);
            let leaf = segs.last() + sfx;
            let w = walk_ops(h, parents);
            lemma_apply_ops_concat(m, base, w);
            lemma_walk_linked(m2, h, parents);
            let m3 = apply_ops(m2, w);
            let o3 = Op::AddChild(p, leaf);
            let o4 = Op::Endpoint(under(p, leaf), s);
            lemma_op_linked(m3, o3);
            lemma_add_child_links(m3, p, leaf);
            lemma_join_not_root(h, parents);
            let m4 = apply_op(m3, o3);
            lemma_op_linked(m4, o4);
            lemma_apply_ops_push(m, base + w, o3);
            lemma_apply_ops_push(m, (base + w).push(o3), o4);
            assert(ingest_ops(u) == (base + w).push(o3).push(o4));
        } else if sfx.len() > 0 {
            let o3 = Op::AddChild(h, sfx);
            let o4 = Op::Endpoint(under(h, sfx), s);
            lemma_op_linked(m2, o3);
            lemma_add_child_links(m2, h, sfx);
            lemma_op_linked(apply_op(m2, o3), o4);
            lemma_apply_ops_push(m, base, o3);
            lemma_apply_ops_push(m, base.push(o3), o4);
            assert(ingest_ops(u) == base.push(o3).push(o4));
        } else {
            lemma_op_linked(m2, Op::Endpoint(h, s));
            lemma_apply_ops_push(m, base, Op::Endpoint(h, s));
            assert(ingest_ops(u) == base.push(Op::Endpoint(h, s)));
        }
    }
}

proof fn lemma_path_key_parent(segs: Seq<Seq<char>>)
    requires
        segs.len() >= 1,
        segs[0] != root_key(),
    ensures
        child_key(parent_key(segs), segs.last()) == path_key(segs),
{
    if segs.len() > 1 {
        let d = segs.drop_last();
        let s = segs.subrange(1, segs.len() as int);
        assert(s.drop_last() =~= d.subrange(1, d.len() as int));
        lemma_join_not_root(segs[0], d.subrange(1, d.len() as int));
    } else {
        assert(segs.subrange(1, 1) =~= Seq::<Seq<char>>::empty());
    }
}

proof fn lemma_step_extends(m: Map<Seq<char>, NodeView>, from: Seq<char>, a: Seq<char>, b: Seq<char>)
    requires
        reachable(m, from, a),
        step(m, a, b),
    ensures
        reachable(m, from, b),
{
    let p = choose|p: Seq<Seq<char>>| #[trigger] is_path(m, p) && p[0] == from && p.last() == a;
    let q = p.push(b);
    assert forall|i: int| 0 <= i < q.len() - 1 implies #[trigger] step(m, q[i], q[i + 1]) by {
        if i < p.len() - 1 {
            assert(step(m, p[i], p[i + 1]));
        }
    }
    assert(is_path(m, q));
}

/// Deleting a subtree removes every key reached from it and no other, and its last segment
/// no longer appears among the children of its parent.
pub proof fn lemma_deletion_complete(m: Map<Seq<char>, NodeView>, segs: Seq<Seq<char>>)
    requires
        segs.len() >= 1,
    ensures
        forall|k: Seq<char>| #[trigger] deleted(m, segs).contains_key(k) <==> (m.contains_key(k)
            && !subtree(m, path_key(segs)).contains(k)),
        m.contains_key(path_key(segs)) && deleted(m, segs).contains_key(parent_key(segs))
            ==> !deleted(m, segs)[parent_key(segs)].children.contains(segs.last()),
        !m.contains_key(path_key(segs)) ==> deleted(m, segs) == m,
{
    if !m.contains_key(path_key(segs)) {
        assert forall|k: Seq<char>| !#[trigger] subtree(m, path_key(segs)).contains(k) by {
            if reachable(m, path_key(segs), k) {
                let p = choose|p: Seq<Seq<char>>| #[trigger] is_path(m, p) && p[0] == path_key(segs) && p.last() == k;
            }
        }
        return;
    }
    let sub = subtree(m, path_key(segs));
    let m2 = m.remove_keys(sub);
    let p = parent_key(segs);
    let seg = segs.last();
    if m2.contains_key(p) && m2[p].children.contains(seg) {
        assert(deleted(m, segs)[p].children == m2[p].children.remove(seg));
    }
}

/// Deleting a subtree of a consistent store leaves it consistent, unless the path starts
/// with the root's own key.
pub proof fn lemma_delete_linked(m: Map<Seq<char>, NodeView>, segs: Seq<Seq<char>>)
    requires
        linked(m),
        segs.len() >= 1,
        segs[0] != root_key(),
    ensures
        linked(deleted(m, segs)),
{
    let key = path_key(segs);
    let sub = subtree(m, key);
    let m2 = m.remove_keys(sub);
    let pk = parent_key(segs);
    let seg = segs.last();
    let d = deleted(m, segs);
    if !m.contains_key(key) {
        return;
    }
    lemma_path_key_parent(segs);
    assert forall|k: Seq<char>| #[trigger] d.contains_key(k) && k != root_key() implies has_link(d, k) by {
        assert(m.contains_key(k) && !sub.contains(k));
        let (p, c) = choose|p: Seq<char>, c: Seq<char>| #[trigger] m.contains_key(p) && #[trigger] m[p].children.contains(c) && child_key(p, c) == k;
        if sub.contains(p) {
            assert(step(m, p, k));
            lemma_step_extends(m, key, p, k);
            assert(sub.contains(k));
        }
        if p == pk && c == seg {
            assert(k == key);
            assert(is_path(m, seq![key]));
            assert(reachable(m, key, key));
            assert(sub.contains(k));
        }
        assert(d.contains_key(p));
        assert(d[p].children.contains(c));
    }
}

/// Folding any URLs whose hosts differ from the root's own key into the initial store
/// leaves every present key but the root listed among the children of a present key.
pub proof fn lemma_ingest_all_linked(us: Seq<UrlView>)
    requires
        forall|i: int| 0 <= i < us.len() ==> (#[trigger] us[i]).host != Some(root_key()),
    ensures
        linked(ingest_all(root_only(), us)),
    decreases us.len(),
{
    if us.len() == 0 {
        assert forall|k: Seq<char>| #[trigger] root_only().contains_key(k) && k != root_key() implies has_link(root_only(), k) by {}
    } else {
        let d = us.drop_last();
        assert forall|i: int| 0 <= i < d.len() implies (#[trigger] d[i]).host != Some(root_key()) by {
            assert(d[i] == us[i]);
        }
        lemma_ingest_all_linked(d);
        assert(us[us.len() - 1].host != Some(root_key()));
        lemma_ingest_linked(ingest_all(root_only(), d), us.last());
    }
}

/// Merging a consistent cache into a consistent store leaves it consistent.
pub proof fn lemma_merge_linked(st: Map<Seq<char>, NodeView>, b: Map<Seq<char>, NodeView>)
    requires
        linked(st),
        linked(b),
    ensures
        linked(merged_map(st, b)),
{
    let mm = merged_map(st, b);
    assert forall|k: Seq<char>| #[trigger] mm.contains_key(k) && k != root_key() implies has_link(mm, k) by {
        if st.contains_key(k) {
            let (p, c) = choose|p: Seq<char>, c: Seq<char>| #[trigger] st.contains_key(p) && #[trigger] st[p].children.contains(c) && child_key(p, c) == k;
            assert(mm.contains_key(p));
            assert(mm[p].children.contains(c));
        } else {
            let (p, c) = choose|p: Seq<char>, c: Seq<char>| #[trigger] b.contains_key(p) && #[trigger] b[p].children.contains(c) && child_key(p, c) == k;
            assert(mm.contains_key(p));
            assert(mm[p].children.contains(c));
        }
    }
}

/// In a consistent store that holds the root, every key is reached from the root through
/// `children`; so listing the endpoints from the root lists every endpoint of the store.
pub proof fn lemma_linked_reachable(m: Map<Seq<char>, NodeView>, k: Seq<char>)
    requires
        linked(m),
        m.contains_key(root_key()),
        m.contains_key(k),
    ensures
        reachable(m, root_key(), k),
    decreases k.len(),
{
    if k == root_key() {
        assert(is_path(m, seq![k]));
    } else {
        let (p, c) = choose|p: Seq<char>, c: Seq<char>| #[trigger] m.contains_key(p) && #[trigger] m[p].children.contains(c) && child_key(p, c) == k;
        assert(step(m, p, k));
        if p == root_key() {
            let q = seq![p, k];
            assert(step(m, q[0], q[1]));
            assert(is_path(m, q));
        } else {
            assert(under(p, c).len() > p.len());
            lemma_linked_reachable(m, p);
            lemma_step_extends(m, root_key(), p, k);
        }
    }
}

/// Every endpoint of a consistent store that holds the root, but the root itself, is listed
/// by an export from the root.
pub proof fn lemma_export_complete(m: Map<Seq<char>, NodeView>)
    requires
        linked(m),
        m.contains_key(root_key()),
    ensures
        forall|k: Seq<char>| #[trigger] exported_keys(m, root_key()).contains(k) <==> (m.contains_key(k)
            && m[k].is_endpoint && k != root_key()),
{
    assert forall|k: Seq<char>| #[trigger] exported_keys(m, root_key()).contains(k) <==> (m.contains_key(k)
        && m[k].is_endpoint && k != root_key()) by {
        if m.contains_key(k) {
            lemma_linked_reachable(m, k);
        }
        if subtree(m, root_key()).contains(k) {
            let p = choose|p: Seq<Seq<char>>| #[trigger] is_path(m, p) && p[0] == root_key() && p.last() == k;
            if p.len() > 1 {
                let i0 = p.len() - 2;
                assert(step(m, p[i0], p[i0 + 1]));
            }
        }
    }
}

/// The hosts of the URLs that have one.
pub open spec fn hosts_of(us: Seq<UrlView>) -> Set<Seq<char>>
    decreases us.len(),
{
    if us.len() == 0 {
        Set::empty()
    } else {
        match us.last().host {
            Some(h) => hosts_of(us.drop_last()).insert(h),
            None => hosts_of(us.drop_last()),
        }
    }
}

proof fn lemma_root_untouched(m: Map<Seq<char>, NodeView>, op: Op)
    requires
        target(op) != root_key(),
    ensures
        node_of(apply_op(m, op), root_key()) == node_of(m, root_key()),
{
}

proof fn lemma_walk_root(m: Map<Seq<char>, NodeView>, h: Seq<char>, segs: Seq<Seq<char>>)
    requires
        h != root_key(),
    ensures
        node_of(apply_ops(m, walk_ops(h, segs)), root_key()) == node_of(m, root_key()),
    decreases segs.len(),
{
    if segs.len() > 0 {
        lemma_walk_root(m, h, segs.drop_last());
        lemma_join_not_root(h, segs.drop_last());
        assert(walk_ops(h, segs).drop_last() =~= walk_ops(h, segs.drop_last()));
        lemma_root_untouched(apply_ops(m, walk_ops(h, segs.drop_last())), Op::AddChild(join(h, segs.drop_last()), segs.last()));
    }
}

proof fn lemma_ingest_root(m: Map<Seq<char>, NodeView>, u: UrlView)
    requires
        u.host != Some(root_key()),
    ensures
        node_of(ingest(m, u), root_key()).children == match u.host {
            Some(h) => node_of(m, root_key()).children.insert(h),
            None => node_of(m, root_key()).children,
        },
{
    if let Some(h) = u.host {
        let s = u.scheme;
        let segs = kept_segments(u.segments);
        let sfx = suffix(u.query, u.fragment);
        let o1 = Op::AddChild(root_key(), h);
        let o2 = Op::Scheme(h, s);
        let base = seq![o1, o2];
        let m1 = apply_op(m, o1);
        let m2 = apply_op(m1, o2);
        lemma_root_untouched(m1, o2);
        assert(apply_ops(m, base) == m2) by {
            lemma_apply_ops_push(m, Seq::empty(), o1);
            assert(Seq::<Op>::empty().push(o1) =~= seq![o1]);
            lemma_apply_ops_push(m, seq![o1], o2);
            assert(seq![o1].push(o2) =~= base);
        }
        if segs.len() > 0 {
            let parents = segs.drop_last();
            let p = join(h, parents);
            let leaf = segs.last() + sfx;
            let w = walk_ops(h, parents);
            lemma_apply_ops_concat(m, base, w);
            lemma_walk_root(m2, h, parents);
            let m3 = apply_ops(m2, w);
            let o3 = Op::AddChild(p, leaf);
            let o4 = Op::Endpoint(under(p, leaf), s);
            lemma_join_not_root(h, parents);
            lemma_under_not_root(p, leaf);
            lemma_root_untouched(m3, o3);
            lemma_root_untouched(apply_op(m3, o3), o4);
            lemma_apply_ops_push(m, base + w, o3);
            lemma_apply_ops_push(m, (base + w).push(o3), o4);
            assert(ingest_ops(u) == (base + w).push(o3).push(o4));
        } else if sfx.len() > 0 {
            let o3 = Op::AddChild(h, sfx);
            let o4 = Op::Endpoint(under(h, sfx), s);
            lemma_under_not_root(h, sfx);
            lemma_root_untouched(m2, o3);
            lemma_root_untouched(apply_op(m2, o3), o4);
            lemma_apply_ops_push(m, base, o3);
            lemma_apply_ops_push(m, base.push(o3), o4);
            assert(ingest_ops(u) == base.push(o3).push(o4));
        } else {
            lemma_root_untouched(m2, Op::Endpoint(h, s));
            lemma_apply_ops_push(m, base, Op::Endpoint(h, s));
            assert(ingest_ops(u) == base.push(Op::Endpoint(h, s)));
        }
    } else {
        assert(ingest_ops(u) =~= Seq::<Op>::empty());
    }
}

/// After ingesting URLs whose hosts differ from the root's own key, the root's children
/// are exactly their hosts.
pub proof fn lemma_root_children(us: Seq<UrlView>)
    requires
        forall|i: int| 0 <= i < us.len() ==> (#[trigger] us[i]).host != Some(root_key()),
    ensures
        node_of(ingest_all(root_only(), us), root_key()).children == hosts_of(us),
    decreases us.len(),
{
    if us.len() == 0 {
        assert(root_only().contains_key(root_key()));
    } else {
        let d = us.drop_last();
        assert forall|i: int| 0 <= i < d.len() implies (#[trigger] d[i]).host != Some(root_key()) by {
            assert(d[i] == us[i]);
        }
        lemma_root_children(d);
        assert(us[us.len() - 1].host != Some(root_key()));
        lemma_ingest_root(ingest_all(root_only(), d), us.last());
    }
}

} // verus!

verus! {

/// `k` is one of the root's children, or is `p/c` for a present `p` that lists `c`.
pub open spec fn attached(m: Map<Seq<char>, NodeView>, k: Seq<char>) -> bool {
    (m.contains_key(root_key()) && m[root_key()].children.contains(k)) || exists|p: Seq<char>, c: Seq<char>|
        #[trigger] m.contains_key(p) && #[trigger] m[p].children.contains(c) && under(p, c) == k
}

/// Every present key but the root is one of the root's children or hangs under a present
/// key that lists its last segment.
pub open spec fn consistent(m: Map<Seq<char>, NodeView>) -> bool {
    forall|k: Seq<char>| #[trigger] m.contains_key(k) && k != root_key() ==> attached(m, k)
}

proof fn lemma_attached_kept(m: Map<Seq<char>, NodeView>, op: Op, k: Seq<char>)
    requires
        attached(m, k),
    ensures
        attached(apply_op(m, op), k),
{
    let m2 = apply_op(m, op);
    if m.contains_key(root_key()) && m[root_key()].children.contains(k) {
        assert(m2.contains_key(root_key()) && m2[root_key()].children.contains(k));
    } else {
        let (p, c) = choose|p: Seq<char>, c: Seq<char>| #[trigger] m.contains_key(p) && #[trigger] m[p].children.contains(c) && under(p, c) == k;
        assert(m2.contains_key(p) && m2[p].children.contains(c));
    }
}

proof fn lemma_op_consistent(m: Map<Seq<char>, NodeView>, op: Op)
    requires
        consistent(m),
        target(op) == root_key() || m.contains_key(target(op)) || attached(m, target(op)),
    ensures
        consistent(apply_op(m, op)),
{
    let m2 = apply_op(m, op);
    assert forall|k: Seq<char>| #[trigger] m2.contains_key(k) && k != root_key() implies attached(m2, k) by {
        lemma_attached_kept(m, op, k);
    }
}

proof fn lemma_add_child_attaches(m: Map<Seq<char>, NodeView>, k: Seq<char>, c: Seq<char>)
    ensures
        attached(apply_op(m, Op::AddChild(k, c)), under(k, c)),
        k == root_key() ==> attached(apply_op(m, Op::AddChild(k, c)), c),
{
    let m2 = apply_op(m, Op::AddChild(k, c));
    assert(m2.contains_key(k) && m2[k].children.contains(c));
}

proof fn lemma_walk_consistent(m: Map<Seq<char>, NodeView>, h: Seq<char>, segs: Seq<Seq<char>>)
    requires
        consistent(m),
        attached(m, h),
    ensures
        consistent(apply_ops(m, walk_ops(h, segs))),
        attached(apply_ops(m, walk_ops(h, segs)), join(h, segs)),
        attached(apply_ops(m, walk_ops(h, segs)), h),
    decreases segs.len(),
{
    if segs.len() > 0 {
        let pre = segs.drop_last();
        lemma_walk_consistent(m, h, pre);
        let mm = apply_ops(m, walk_ops(h, pre));
        let op = Op::AddChild(join(h, pre), segs.last());
        assert(walk_ops(h, segs).drop_last() =~= walk_ops(h, pre));
        lemma_op_consistent(mm, op);
        lemma_add_child_attaches(mm, join(h, pre), segs.last());
        lemma_attached_kept(mm, op, h);
    }
}

/// Folding any URL into a consistent index keeps it consistent.
pub proof fn lemma_ingest_consistent(m: Map<Seq<char>, NodeView>, u: UrlView)
    requires
        consistent(m),
    ensures
        consistent(ingest(m, u)),
{
    if let Some(h) = u.host {
        let s = u.scheme;
        let segs = kept_segments(u.segments);
        let sfx = suffix(u.query, u.fragment);
        let o1 = Op::AddChild(root_key(), h);
        let o2 = Op::Scheme(h, s);
        let base = seq![o1, o2];
        let m1 = apply_op(m, o1);
        lemma_op_consistent(m, o1);
        lemma_add_child_attaches(m, root_key(), h);
        let m2 = apply_op(m1, o2);
        lemma_op_consistent(m1, o2);
        lemma_attached_kept(m1, o2, h);
        assert(apply_ops(m, base) == m2) by {
            lemma_apply_ops_push(m, Seq::empty(), o1);
            assert(Seq::<Op>::empty().push(o1) =~= seq![o1]);
            lemma_apply_ops_push(m, seq![o1], o2);
            assert(seq![o1].push(o2) =~= base);
        }
        if segs.len() > 0 {
            let parents = segs.drop_last();
            let p = join(h, parents);
            let leaf = segs.last() + sfx;
            let w = walk_ops(h, parents);
            lemma_apply_ops_concat(m, base, w);
            lemma_walk_consistent(m2, h, parents);
            let m3 = apply_ops(m2, w);
            let o3 = Op::AddChild(p, leaf);
            let o4 = Op::Endpoint(under(p, leaf), s);
            lemma_op_consistent(m3, o3);
            lemma_add_child_attaches(m3, p, leaf);
            lemma_op_consistent(apply_op(m3, o3), o4);
            lemma_apply_ops_push(m, base + w, o3);
            lemma_apply_ops_push(m, (base + w).push(o3), o4);
            assert(ingest_ops(u) == (base + w).push(o3).push(o4));
        } else if sfx.len() > 0 {
            let o3 = Op::AddChild(h, sfx);
            let o4 = Op::Endpoint(under(h, sfx), s);
            lemma_op_consistent(m2, o3);
            lemma_add_child_attaches(m2, h, sfx);
            lemma_op_consistent(apply_op(m2, o3), o4);
            lemma_apply_ops_push(m, base, o3);
            lemma_apply_ops_push(m, base.push(o3), o4);
            assert(ingest_ops(u) == base.push(o3).push(o4));
        } else {
            lemma_op_consistent(m2, Op::Endpoint(h, s));
            lemma_apply_ops_push(m, base, Op::Endpoint(h, s));
            assert(ingest_ops(u) == base.push(Op::Endpoint(h, s)));
        }
    } else {
        assert(ingest_ops(u) =~= Seq::<Op>::empty());
    }
}

/// Ingesting any URLs into the initial store gives a consistent store.
pub proof fn lemma_ingest_all_consistent(us: Seq<UrlView>)
    ensures
        consistent(ingest_all(root_only(), us)),
    decreases us.len(),
{
    if us.len() > 0 {
        lemma_ingest_all_consistent(us.drop_last());
        lemma_ingest_consistent(ingest_all(root_only(), us.drop_last()), us.last());
    }
}

/// Merging a consistent cache into a consistent store leaves it consistent.
pub proof fn lemma_merge_consistent(st: Map<Seq<char>, NodeView>, b: Map<Seq<char>, NodeView>)
    requires
        consistent(st),
        consistent(b),
    ensures
        consistent(merged_map(st, b)),
{
    let mm = merged_map(st, b);
    assert forall|k: Seq<char>| #[trigger] mm.contains_key(k) && k != root_key() implies attached(mm, k) by {
        let src = if st.contains_key(k) { st } else { b };
        assert(src.contains_key(k));
        if src.contains_key(root_key()) && src[root_key()].children.contains(k) {
            assert(mm.contains_key(root_key()) && mm[root_key()].children.contains(k));
        } else {
            let (p, c) = choose|p: Seq<char>, c: Seq<char>| #[trigger] src.contains_key(p) && #[trigger] src[p].children.contains(c) && under(p, c) == k;
            assert(mm.contains_key(p) && mm[p].children.contains(c));
        }
    }
}

} // verus!

verus! {

proof fn lemma_children_grow(m: Map<Seq<char>, NodeView>, ops: Seq<Op>, k: Seq<char>)
    ensures
        node_of(m, k).children.subset_of(node_of(apply_ops(m, ops), k).children),
    decreases ops.len(),
{
    if ops.len() > 0 {
        lemma_children_grow(m, ops.drop_last(), k);
    }
}

/// After ingesting any URLs into the initial store, every host is among the root's children.
pub proof fn lemma_hosts_under_root(us: Seq<UrlView>)
    ensures
        hosts_of(us).subset_of(node_of(ingest_all(root_only(), us), root_key()).children),
    decreases us.len(),
{
    if us.len() > 0 {
        let d = us.drop_last();
        lemma_hosts_under_root(d);
        let m = ingest_all(root_only(), d);
        let u = us.last();
        let ops = ingest_ops(u);
        lemma_children_grow(m, ops, root_key());
        if let Some(h) = u.host {
            let o1 = Op::AddChild(root_key(), h);
            assert(ops[0] == o1);
            assert(seq![o1] + ops.drop_first() =~= ops);
            lemma_apply_ops_concat(m, seq![o1], ops.drop_first());
            lemma_apply_ops_push(m, Seq::empty(), o1);
            assert(Seq::<Op>::empty().push(o1) =~= seq![o1]);
            lemma_children_grow(apply_op(m, o1), ops.drop_first(), root_key());
        }
    }
}

} // verus!
