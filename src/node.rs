use vstd::prelude::*;
use crate::text::same_text;

verus! {

/// The scheme that, once recorded for a key, is never replaced.
pub open spec fn https() -> Seq<char> {
    seq!['h', 't', 't', 'p', 's']
}

/// The view of an optional string.
pub open spec fn opt_view(o: Option<String>) -> Option<Seq<char>> {
    match o {
        Some(s) => Some(s@),
        None => None,
    }
}

/// The set of strings that a sequence of strings holds.
pub open spec fn text_set(v: Seq<String>) -> Set<Seq<char>> {
    Set::new(|c: Seq<char>| exists|i: int| 0 <= i < v.len() && v[i]@ == c)
}

/// No two entries of `v` hold the same text.
pub open spec fn distinct_texts(v: Seq<String>) -> bool {
    forall|i: int, j: int| 0 <= i < v.len() && 0 <= j < v.len() && i != j ==> v[i]@ != v[j]@
}

/// Sticky-https rule: a recorded `https` stays; otherwise the observed scheme is taken.
pub open spec fn sticky(cur: Option<Seq<char>>, observed: Seq<char>) -> Option<Seq<char>> {
    if cur == Some(https()) {
        cur
    } else {
        Some(observed)
    }
}

/// Scheme of a merged record: a persisted `https` wins, then the batch's scheme, then the
/// persisted one.
pub open spec fn merged_scheme(old: Option<Seq<char>>, new: Option<Seq<char>>) -> Option<Seq<char>> {
    if old == Some(https()) {
        old
    } else if new is Some {
        new
    } else {
        old
    }
}

/// Mathematical content of a node record.
pub struct NodeView {
    pub is_endpoint: bool,
    pub children: Set<Seq<char>>,
    pub scheme: Option<Seq<char>>,
}

/// The record of a key that has never been observed.
pub open spec fn empty_view() -> NodeView {
    NodeView { is_endpoint: false, children: Set::empty(), scheme: None }
}

/// What a merge of a batch record into a persisted record yields.
pub open spec fn merge_view(old: NodeView, new: NodeView) -> NodeView {
    NodeView {
        is_endpoint: old.is_endpoint || new.is_endpoint,
        children: old.children.union(new.children),
        scheme: merged_scheme(old.scheme, new.scheme),
    }
}

/// One node of the index: whether a URL ends here, the names of the child segments, and
/// the scheme last recorded under the sticky-https rule.
pub struct NodeValue {
    pub is_endpoint: bool,
    pub children: Vec<String>,
    pub scheme: Option<String>,
}

impl View for NodeValue {
    type V = NodeView;

    open spec fn view(&self) -> NodeView {
        NodeView {
            is_endpoint: self.is_endpoint,
            children: text_set(self.children@),
            scheme: opt_view(self.scheme),
        }
    }
}

pub fn is_https(s: &str) -> (r: bool)
    ensures
        r == (s@ == https()),
{
    proof {
        reveal_strlit("https");
        assert("https"@ =~= https());
    }
    same_text(s, "https")
}

/// Copy of an optional string.
pub fn copy_opt(o: &Option<String>) -> (r: Option<String>)
    ensures
        opt_view(r) == opt_view(*o),
{
    match o {
        Some(s) => Some(s.clone()),
        None => None,
    }
}

impl NodeValue {
    /// No child name is listed twice.
    pub open spec fn wf(&self) -> bool {
        distinct_texts(self.children@)
    }

    pub fn new() -> (r: NodeValue)
        ensures
            r.wf(),
            r@ == empty_view(),
    {
        let r = NodeValue { is_endpoint: false, children: Vec::new(), scheme: None };
        assert(r@.children =~= Set::empty());
        r
    }

    /// Whether `name` is one of the children.
    pub fn has_child(&self, name: &str) -> (r: bool)
        ensures
            r == self@.children.contains(name@),
    {
        let wanted = name.to_owned();
        let mut i: usize = 0;
        while i < self.children.len()
            invariant
                wanted@ == name@,
                i <= self.children@.len(),
                forall|j: int| 0 <= j < i ==> self.children@[j]@ != name@,
            decreases self.children@.len() - i,
        {
            if self.children[i] == wanted {
                assert(self@.children.contains(name@));
                return true;
            }
            i = i + 1;
        }
        false
    }

    /// Adds `name` to the children (set semantics).
    pub fn add_child(&mut self, name: &str)
        requires
            old(self).wf(),
        ensures
            final(self).wf(),
            final(self)@ == (NodeView { children: old(self)@.children.insert(name@), ..old(self)@ }),
    {
        if !self.has_child(name) {
            let ghost pre = self.children@;
            self.children.push(name.to_owned());
            assert(text_set(self.children@) =~= text_set(pre).insert(name@)) by {
                assert(self.children@[pre.len() as int]@ == name@);
                assert forall|c: Seq<char>| text_set(pre).contains(c) implies text_set(self.children@).contains(c) by {
                    let i = choose|i: int| 0 <= i < pre.len() && pre[i]@ == c;
                    assert(self.children@[i] == pre[i]);
                }
                assert forall|c: Seq<char>| text_set(self.children@).contains(c) implies text_set(pre).insert(name@).contains(c) by {
                    let i = choose|i: int| 0 <= i < self.children@.len() && self.children@[i]@ == c;
                    if i < pre.len() {
                        assert(pre[i] == self.children@[i]);
                    }
                }
            }
        } else {
            assert(self@.children.insert(name@) =~= self@.children);
        }
    }

    /// Removes `name` from the children, if listed.
    pub fn remove_child(&mut self, name: &str)
        requires
            old(self).wf(),
        ensures
            final(self).wf(),
            final(self)@ == (NodeView { children: old(self)@.children.remove(name@), ..old(self)@ }),
    {
        let mut kept: Vec<String> = Vec::new();
        let mut i: usize = 0;
        while i < self.children.len()
            invariant
                distinct_texts(self.children@),
                i <= self.children@.len(),
                distinct_texts(kept@),
                forall|j: int| 0 <= j < kept@.len() ==> kept@[j]@ != name@,
                text_set(kept@) == text_set(self.children@.subrange(0, i as int)).remove(name@),
                forall|j: int| #![trigger kept@[j]] 0 <= j < kept@.len() ==> exists|u: int| 0 <= u < i && #[trigger] self.children@[u]@ == kept@[j]@,
            decreases self.children@.len() - i,
        {
            let ghost pre = kept@;
            let ghost a = self.children@.subrange(0, i + 1);
            let ghost b = self.children@.subrange(0, i as int);
            proof {
                assert(text_set(a) =~= text_set(b).insert(self.children@[i as int]@)) by {
                    assert forall|c: Seq<char>| text_set(a).contains(c) implies text_set(b).insert(self.children@[i as int]@).contains(c) by {
                        let j = choose|j: int| 0 <= j < a.len() && a[j]@ == c;
                        if j < i {
                            assert(b[j] == a[j]);
                        }
                    }
                    assert forall|c: Seq<char>| text_set(b).contains(c) implies text_set(a).contains(c) by {
                        let j = choose|j: int| 0 <= j < b.len() && b[j]@ == c;
                        assert(a[j] == b[j]);
                    }
                    assert(a[i as int] == self.children@[i as int]);
                }
            }
            if !same_text(self.children[i].as_str(), name) {
                kept.push(self.children[i].clone());
                proof {
                    assert(text_set(kept@) =~= text_set(pre).insert(self.children@[i as int]@)) by {
                        assert forall|c: Seq<char>| text_set(kept@).contains(c) implies text_set(pre).insert(self.children@[i as int]@).contains(c) by {
                            let j = choose|j: int| 0 <= j < kept@.len() && kept@[j]@ == c;
                            if j < pre.len() {
                                assert(pre[j] == kept@[j]);
                            }
                        }
                        assert forall|c: Seq<char>| text_set(pre).contains(c) implies text_set(kept@).contains(c) by {
                            let j = choose|j: int| 0 <= j < pre.len() && pre[j]@ == c;
                            assert(kept@[j] == pre[j]);
                        }
                        assert(kept@[pre.len() as int]@ == self.children@[i as int]@);
                    }
                    assert(text_set(kept@) =~= text_set(a).remove(name@));
                    assert forall|x: int, y: int| 0 <= x < kept@.len() && 0 <= y < kept@.len() && x != y implies kept@[x]@ != kept@[y]@ by {
                        if x < pre.len() && y < pre.len() {
                            assert(kept@[x] == pre[x]);
                            assert(kept@[y] == pre[y]);
                        } else if x < pre.len() {
                            assert(kept@[x] == pre[x]);
                            let u = choose|u: int| 0 <= u < i && #[trigger] self.children@[u]@ == pre[x]@;
                        } else if y < pre.len() {
                            assert(kept@[y] == pre[y]);
                            let u = choose|u: int| 0 <= u < i && #[trigger] self.children@[u]@ == pre[y]@;
                        }
                    }
                    assert forall|j: int| #![trigger kept@[j]] 0 <= j < kept@.len() implies exists|u: int| 0 <= u < i + 1 && #[trigger] self.children@[u]@ == kept@[j]@ by {
                        if j < pre.len() {
                            assert(kept@[j] == pre[j]);
                            let u = choose|u: int| 0 <= u < i && #[trigger] self.children@[u]@ == pre[j]@;
                        } else {
                            assert(self.children@[i as int]@ == kept@[j]@);
                        }
                    }
                }
            } else {
                assert(text_set(kept@) =~= text_set(a).remove(name@));
                assert forall|j: int| #![trigger kept@[j]] 0 <= j < kept@.len() implies exists|u: int| 0 <= u < i + 1 && #[trigger] self.children@[u]@ == kept@[j]@ by {
                    let u = choose|u: int| 0 <= u < i && #[trigger] self.children@[u]@ == kept@[j]@;
                }
            }
            i = i + 1;
        }
        assert(self.children@.subrange(0, self.children@.len() as int) =~= self.children@);
        self.children = kept;
    }

    /// Records `observed` as the scheme under the sticky-https rule.
    pub fn observe_scheme(&mut self, observed: &str)
        ensures
            final(self)@ == (NodeView { scheme: sticky(old(self)@.scheme, observed@), ..old(self)@ }),
            final(self).children == old(self).children,
    {
        let keep = match &self.scheme {
            Some(s) => is_https(s.as_str()),
            None => false,
        };
        if !keep {
            self.scheme = Some(observed.to_owned());
        }
    }

    /// A copy of this record.
    pub fn duplicate(&self) -> (r: NodeValue)
        ensures
            r@ == self@,
            r.children@ == self.children@,
    {
        let mut children: Vec<String> = Vec::new();
        let mut i: usize = 0;
        while i < self.children.len()
            invariant
                i <= self.children@.len(),
                children@.len() == i,
                forall|j: int| 0 <= j < i ==> children@[j] == self.children@[j],
            decreases self.children@.len() - i,
        {
            children.push(self.children[i].clone());
            i = i + 1;
        }
        assert(children@ =~= self.children@);
        NodeValue { is_endpoint: self.is_endpoint, children, scheme: copy_opt(&self.scheme) }
    }
}

/// Merges a batch record into the persisted record under the same key: children are
/// united, `is_endpoint` is or-ed, and a persisted `https` is never replaced.
pub fn merge_node(existing: &NodeValue, new: &NodeValue) -> (r: NodeValue)
    requires
        existing.wf(),
    ensures
        r.wf(),
        r@ == merge_view(existing@, new@),
{
    let mut r = existing.duplicate();
    r.is_endpoint = existing.is_endpoint || new.is_endpoint;
    let mut i: usize = 0;
    while i < new.children.len()
        invariant
            r.wf(),
            i <= new.children@.len(),
            r@.is_endpoint == (existing@.is_endpoint || new@.is_endpoint),
            r@.scheme == existing@.scheme,
            r@.children == existing@.children.union(text_set(new.children@.subrange(0, i as int))),
        decreases new.children@.len() - i,
    {
        r.add_child(new.children[i].as_str());
        assert(text_set(new.children@.subrange(0, i + 1)) =~= text_set(new.children@.subrange(0, i as int)).insert(new.children@[i as int]@)) by {
            let a = new.children@.subrange(0, i + 1);
            let b = new.children@.subrange(0, i as int);
            assert forall|c: Seq<char>| text_set(a).contains(c) implies text_set(b).insert(new.children@[i as int]@).contains(c) by {
                let j = choose|j: int| 0 <= j < a.len() && a[j]@ == c;
                if j < i {
                    assert(b[j] == a[j]);
                }
            }
            assert forall|c: Seq<char>| text_set(b).contains(c) implies text_set(a).contains(c) by {
                let j = choose|j: int| 0 <= j < b.len() && b[j]@ == c;
                assert(a[j] == b[j]);
            }
            assert(a[i as int] == new.children@[i as int]);
        }
        assert(r@.children =~= existing@.children.union(text_set(new.children@.subrange(0, i + 1))));
        i = i + 1;
    }
    assert(new.children@.subrange(0, new.children@.len() as int) =~= new.children@);
    let persisted_https = match &existing.scheme {
        Some(s) => is_https(s.as_str()),
        None => false,
    };
    if !persisted_https && new.scheme.is_some() {
        r.scheme = copy_opt(&new.scheme);
    }
    r
}

} // verus!
