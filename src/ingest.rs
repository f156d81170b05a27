use vstd::prelude::*;
use crate::node::{NodeView, opt_view};
use crate::text::{candidates, extract_candidates};
use crate::node_map::{NodeMap, Op, apply_ops, lemma_apply_ops_push, root_key};

verus! {

/// Whether `url::Url::parse` accepts `s`.
pub uninterp spec fn url_parses(s: Seq<char>) -> bool;

/// `Url::scheme` of the URL that `s` parses to.
pub uninterp spec fn url_scheme(s: Seq<char>) -> Seq<char>;

/// `Url::host_str` of the URL that `s` parses to.
pub uninterp spec fn url_host(s: Seq<char>) -> Option<Seq<char>>;

/// The items of `Url::path_segments` of the URL that `s` parses to (none for a
/// cannot-be-a-base URL).
pub uninterp spec fn url_segments(s: Seq<char>) -> Seq<Seq<char>>;

/// `Url::query` of the URL that `s` parses to.
pub uninterp spec fn url_query(s: Seq<char>) -> Option<Seq<char>>;

/// `Url::fragment` of the URL that `s` parses to.
pub uninterp spec fn url_fragment(s: Seq<char>) -> Option<Seq<char>>;

/// The parts of a parsed URL that the index reads.
pub struct UrlParts {
    pub scheme: String,
    pub host: Option<String>,
    pub segments: Vec<String>,
    pub query: Option<String>,
    pub fragment: Option<String>,
}

pub struct UrlView {
    pub scheme: Seq<char>,
    pub host: Option<Seq<char>>,
    pub segments: Seq<Seq<char>>,
    pub query: Option<Seq<char>>,
    pub fragment: Option<Seq<char>>,
}

pub open spec fn texts(v: Seq<String>) -> Seq<Seq<char>> {
    v.map_values(|s: String| s@)
}

impl View for UrlParts {
    type V = UrlView;

    open spec fn view(&self) -> UrlView {
        UrlView {
            scheme: self.scheme@,
            host: opt_view(self.host),
            segments: texts(self.segments@),
            query: opt_view(self.query),
            fragment: opt_view(self.fragment),
        }
    }
}

/// What `url::Url::parse` makes of `s`, as seen through the index's reading of it.
pub open spec fn parsed_view(s: Seq<char>) -> UrlView {
    UrlView {
        scheme: url_scheme(s),
        host: url_host(s),
        segments: url_segments(s),
        query: url_query(s),
        fragment: url_fragment(s),
    }
}

/// Relies on `url::Url::parse` and on the accessors `scheme`, `host_str`, `path_segments`,
/// `query` and `fragment` of the URL it returns; each is a function of the input text.
#[verifier::external_body]
pub(crate) fn parse_url(s: &str) -> (r: Option<UrlParts>)
    ensures
        r is Some <==> url_parses(s@),
        r matches Some(u) ==> u@.scheme == url_scheme(s@),
        r matches Some(u) ==> u@.host == url_host(s@),
        r matches Some(u) ==> u@.segments == url_segments(s@),
        r matches Some(u) ==> u@.query == url_query(s@),
        r matches Some(u) ==> u@.fragment == url_fragment(s@),
{
    url::Url::parse(s).ok().map(|u| UrlParts {
        scheme: u.scheme().to_string(),
        host: u.host_str().map(|h| h.to_string()),
        segments: u.path_segments().map_or(Vec::new(), |p| p.map(|x| x.to_string()).collect()),
        query: u.query().map(|q| q.to_string()),
        fragment: u.fragment().map(|f| f.to_string()),
    })
}

/// The path segments with the empty ones dropped.
pub open spec fn kept_segments(s: Seq<Seq<char>>) -> Seq<Seq<char>>
    decreases s.len(),
{
    if s.len() == 0 {
        s
    } else if s.last().len() > 0 {
        kept_segments(s.drop_last()).push(s.last())
    } else {
        kept_segments(s.drop_last())
    }
}

/// `?query` then `#fragment`, each only when present.
pub open spec fn suffix(q: Option<Seq<char>>, f: Option<Seq<char>>) -> Seq<char> {
    (match q {
        Some(q) => seq!['?'] + q,
        None => Seq::empty(),
    }) + (match f {
        Some(f) => seq!['#'] + f,
        None => Seq::empty(),
    })
}

/// The key of the child `c` of key `k`.
pub open spec fn under(k: Seq<char>, c: Seq<char>) -> Seq<char> {
    k + seq!['/'] + c
}

/// The key of host `h` followed by `segs`.
pub open spec fn join(h: Seq<char>, segs: Seq<Seq<char>>) -> Seq<char>
    decreases segs.len(),
{
    if segs.len() == 0 {
        h
    } else {
        under(join(h, segs.drop_last()), segs.last())
    }
}

/// Links each segment as a child of the key before it.
pub open spec fn walk_ops(h: Seq<char>, segs: Seq<Seq<char>>) -> Seq<Op>
    decreases segs.len(),
{
    if segs.len() == 0 {
        Seq::empty()
    } else {
        walk_ops(h, segs.drop_last()).push(Op::AddChild(join(h, segs.drop_last()), segs.last()))
    }
}

/// The key at which the URL ends, once it has a host.
pub open spec fn endpoint_key(u: UrlView) -> Seq<char> {
    let h = u.host->0;
    let segs = kept_segments(u.segments);
    let sfx = suffix(u.query, u.fragment);
    if segs.len() > 0 {
        under(join(h, segs.drop_last()), segs.last() + sfx)
    } else if sfx.len() > 0 {
        under(h, sfx)
    } else {
        h
    }
}

/// The updates that folding one URL into the index makes, in order.
pub open spec fn ingest_ops(u: UrlView) -> Seq<Op> {
    match u.host {
        None => Seq::empty(),
        Some(h) => {
            let s = u.scheme;
            let segs = kept_segments(u.segments);
            let sfx = suffix(u.query, u.fragment);
            let base = seq![Op::AddChild(root_key(), h), Op::Scheme(h, s)];
            if segs.len() > 0 {
                let parents = segs.drop_last();
                let p = join(h, parents);
                let leaf = segs.last() + sfx;
                (base + walk_ops(h, parents)).push(Op::AddChild(p, leaf)).push(
                    Op::Endpoint(under(p, leaf), s),
                )
            } else if sfx.len() > 0 {
                base.push(Op::AddChild(h, sfx)).push(Op::Endpoint(under(h, sfx), s))
            } else {
                base.push(Op::Endpoint(h, s))
            }
        },
    }
}

/// The index after folding in one URL.
pub open spec fn ingest(m: Map<Seq<char>, NodeView>, u: UrlView) -> Map<Seq<char>, NodeView> {
    apply_ops(m, ingest_ops(u))
}

/// The segments of `segments` that are not empty, in order.
pub fn keep_segments(segments: &Vec<String>) -> (r: Vec<String>)
    ensures
        texts(r@) == kept_segments(texts(segments@)),
{
    let mut r: Vec<String> = Vec::new();
    let mut i: usize = 0;
    while i < segments.len()
        invariant
            i <= segments@.len(),
            texts(r@) == kept_segments(texts(segments@.subrange(0, i as int))),
        decreases segments@.len() - i,
    {
        let ghost pre = r@;
        let ghost s = texts(segments@.subrange(0, i + 1));
        assert(s.drop_last() =~= texts(segments@.subrange(0, i as int)));
        assert(s.last() == segments@[i as int]@);
        if segments[i].unicode_len() > 0 {
            r.push(segments[i].clone());
            assert(texts(r@) =~= texts(pre).push(segments@[i as int]@));
        }
        i = i + 1;
    }
    assert(segments@.subrange(0, segments@.len() as int) =~= segments@);
    r
}

/// `?query` then `#fragment`, each only when present.
pub fn leaf_suffix(query: &Option<String>, fragment: &Option<String>) -> (r: String)
    ensures
        r@ == suffix(opt_view(*query), opt_view(*fragment)),
{
    proof {
        reveal_strlit("?");
        reveal_strlit("#");
    }
    let mut r = String::new();
    if let Some(q) = query {
        r.append("?");
        r.append(q.as_str());
    }
    if let Some(f) = fragment {
        r.append("#");
        r.append(f.as_str());
    }
    assert(r@ =~= suffix(opt_view(*query), opt_view(*fragment)));
    r
}

/// Appends `/` and `c` to the key `k`.
fn push_child_key(k: &mut String, c: &str)
    ensures
        final(k)@ == under(old(k)@, c@),
{
    proof {
        reveal_strlit("/");
    }
    k.append("/");
    k.append(c);
    assert(final(k)@ =~= under(old(k)@, c@));
}

/// Folds one parsed URL into the cache: the host under the root, each path segment under
/// the key before it, and the endpoint at the end, with the sticky-https rule for the host
/// and the endpoint. A URL without a host leaves everything unchanged; otherwise
/// `url_count` goes up by one.
pub fn process_url(url: &UrlParts, url_count: &mut usize, cache: &mut NodeMap)
    requires
        old(cache).wf(),
    ensures
        final(cache).wf(),
        final(cache)@ == ingest(old(cache)@, url@),
        *final(url_count) == if url@.host is Some {
            (*old(url_count)).saturating_add(1)
        } else {
            *old(url_count)
        },
{
    let ghost m0 = cache@;
    let host = match &url.host {
        None => {
            return;
        },
        Some(h) => h,
    };
    *url_count = (*url_count).saturating_add(1);
    let ghost h = host@;
    let ghost s = url.scheme@;
    proof {
        reveal_strlit("__ROOT__");
        assert("__ROOT__"@ =~= root_key());
    }
    cache.add_child("__ROOT__", host.as_str());
    cache.observe(host.as_str(), url.scheme.as_str(), false);
    let ghost base = seq![Op::AddChild(root_key(), h), Op::Scheme(h, s)];
    proof {
        lemma_apply_ops_push(m0, Seq::empty(), Op::AddChild(root_key(), h));
        lemma_apply_ops_push(m0, seq![Op::AddChild(root_key(), h)], Op::Scheme(h, s));
        assert(seq![Op::AddChild(root_key(), h)] =~= Seq::<Op>::empty().push(Op::AddChild(root_key(), h)));
        assert(base =~= seq![Op::AddChild(root_key(), h)].push(Op::Scheme(h, s)));
    }
    let segs = keep_segments(&url.segments);
    let ghost ks = texts(segs@);
    let sfx = leaf_suffix(&url.query, &url.fragment);
    let mut key = host.clone();
    if segs.len() > 0 {
        let n = segs.len() - 1;
        let mut i: usize = 0;
        while i < n
            invariant
                cache.wf(),
                n + 1 == segs@.len(),
                ks == texts(segs@),
                i <= n,
                key@ == join(h, ks.subrange(0, i as int)),
                cache@ == apply_ops(m0, base + walk_ops(h, ks.subrange(0, i as int))),
            decreases n - i,
        {
            let ghost pre = ks.subrange(0, i as int);
            let ghost post = ks.subrange(0, i + 1);
            cache.add_child(key.as_str(), segs[i].as_str());
            push_child_key(&mut key, segs[i].as_str());
            proof {
                assert(post.drop_last() =~= pre);
                assert(post.last() == segs@[i as int]@);
                let o = Op::AddChild(join(h, pre), ks[i as int]);
                lemma_apply_ops_push(m0, base + walk_ops(h, pre), o);
                assert((base + walk_ops(h, pre)).push(o) =~= base + walk_ops(h, post));
            }
            i = i + 1;
        }
        let mut leaf = segs[n].clone();
        leaf.append(sfx.as_str());
        let ghost parents = ks.subrange(0, n as int);
        cache.add_child(key.as_str(), leaf.as_str());
        let ghost mid = cache@;
        push_child_key(&mut key, leaf.as_str());
        cache.observe(key.as_str(), url.scheme.as_str(), true);
        proof {
            assert(ks.drop_last() =~= parents);
            let o1 = Op::AddChild(join(h, parents), leaf@);
            let o2 = Op::Endpoint(key@, s);
            lemma_apply_ops_push(m0, base + walk_ops(h, parents), o1);
            lemma_apply_ops_push(m0, (base + walk_ops(h, parents)).push(o1), o2);
        }
    } else {
        if sfx.unicode_len() > 0 {
            cache.add_child(host.as_str(), sfx.as_str());
            push_child_key(&mut key, sfx.as_str());
            cache.observe(key.as_str(), url.scheme.as_str(), true);
            proof {
                let o1 = Op::AddChild(h, sfx@);
                let o2 = Op::Endpoint(key@, s);
                lemma_apply_ops_push(m0, base, o1);
                lemma_apply_ops_push(m0, base.push(o1), o2);
            }
        } else {
            cache.observe(host.as_str(), url.scheme.as_str(), true);
            proof {
                lemma_apply_ops_push(m0, base, Op::Endpoint(h, s));
            }
        }
    }
}

} // verus!

verus! {

/// `s` starts with `//`, a URL without a scheme.
pub open spec fn protocol_relative(s: Seq<char>) -> bool {
    s.len() >= 2 && s[0] == '/' && s[1] == '/'
}

pub open spec fn https_prefix() -> Seq<char> {
    seq!['h', 't', 't', 'p', 's', ':']
}

/// The URL that a candidate yields: parsed as it stands, or else, when it starts with
/// `//`, parsed with `https:` before it.
pub open spec fn url_of(c: Seq<char>) -> Option<UrlView> {
    if url_parses(c) {
        Some(parsed_view(c))
    } else if protocol_relative(c) && url_parses(https_prefix() + c) {
        Some(parsed_view(https_prefix() + c))
    } else {
        None
    }
}

/// The URLs that the candidates yield, in order.
pub open spec fn urls_of(cs: Seq<Seq<char>>) -> Seq<UrlView>
    decreases cs.len(),
{
    if cs.len() == 0 {
        Seq::empty()
    } else {
        match url_of(cs.last()) {
            Some(u) => urls_of(cs.drop_last()).push(u),
            None => urls_of(cs.drop_last()),
        }
    }
}

/// The index after folding in each URL in order.
pub open spec fn ingest_all(m: Map<Seq<char>, NodeView>, us: Seq<UrlView>) -> Map<Seq<char>, NodeView>
    decreases us.len(),
{
    if us.len() == 0 {
        m
    } else {
        ingest(ingest_all(m, us.drop_last()), us.last())
    }
}

/// The URL count after folding in each URL in order: one more for each that has a host.
pub open spec fn count_after(c: usize, us: Seq<UrlView>) -> usize
    decreases us.len(),
{
    if us.len() == 0 {
        c
    } else if us.last().host is Some {
        count_after(c, us.drop_last()).saturating_add(1)
    } else {
        count_after(c, us.drop_last())
    }
}

pub open spec fn url_views(v: Seq<UrlParts>) -> Seq<UrlView> {
    v.map_values(|u: UrlParts| u@)
}

/// The URL that a candidate yields, if any: parsed as it stands, or else, when it starts
/// with `//`, parsed with `https:` before it.
pub fn parse_candidate(c: &str) -> (r: Option<UrlParts>)
    ensures
        match r {
            Some(u) => url_of(c@) == Some(u@),
            None => url_of(c@) is None,
        },
{
    match parse_url(c) {
        Some(u) => Some(u),
        None => {
            if c.unicode_len() >= 2 && c.get_char(0) == '/' && c.get_char(1) == '/' {
                proof {
                    reveal_strlit("https:");
                    assert("https:"@ =~= https_prefix());
                }
                let w = "https:".to_owned().concat(c);
                parse_url(w.as_str())
            } else {
                None
            }
        },
    }
}

/// The URLs found in one line of text, in order.
pub fn extract_urls(line: &str) -> (r: Vec<UrlParts>)
    ensures
        url_views(r@) == urls_of(candidates(line@)),
{
    let cs = extract_candidates(line);
    let ghost cv = cs@.map_values(|s: String| s@);
    let mut r: Vec<UrlParts> = Vec::new();
    let mut i: usize = 0;
    while i < cs.len()
        invariant
            cv == cs@.map_values(|s: String| s@),
            cv == candidates(line@),
            i <= cs@.len(),
            url_views(r@) == urls_of(cv.subrange(0, i as int)),
        decreases cs@.len() - i,
    {
        let ghost pre = r@;
        proof {
            assert(cv.subrange(0, i + 1).drop_last() =~= cv.subrange(0, i as int));
            assert(cv.subrange(0, i + 1).last() == cs@[i as int]@);
        }
        match parse_candidate(cs[i].as_str()) {
            Some(u) => {
                r.push(u);
                assert(url_views(r@) =~= url_views(pre).push(r@.last()@));
            },
            None => {},
        }
        i = i + 1;
    }
    assert(cv.subrange(0, cv.len() as int) =~= cv);
    r
}

/// Folds each URL into the cache in order, counting those that have a host.
pub fn ingest_urls(urls: &Vec<UrlParts>, url_count: &mut usize, cache: &mut NodeMap)
    requires
        old(cache).wf(),
    ensures
        final(cache).wf(),
        final(cache)@ == ingest_all(old(cache)@, url_views(urls@)),
        *final(url_count) == count_after(*old(url_count), url_views(urls@)),
{
    let ghost m0 = cache@;
    let ghost c0 = *url_count;
    let mut i: usize = 0;
    while i < urls.len()
        invariant
            cache.wf(),
            i <= urls@.len(),
            cache@ == ingest_all(m0, url_views(urls@.subrange(0, i as int))),
            *url_count == count_after(c0, url_views(urls@.subrange(0, i as int))),
        decreases urls@.len() - i,
    {
        proof {
            assert(url_views(urls@.subrange(0, i + 1)).drop_last() =~= url_views(urls@.subrange(0, i as int)));
        }
        process_url(&urls[i], url_count, cache);
        i = i + 1;
    }
    assert(urls@.subrange(0, urls@.len() as int) =~= urls@);
}

/// Folds every URL found in one line of text into the cache.
pub fn ingest_line(line: &str, url_count: &mut usize, cache: &mut NodeMap)
    requires
        old(cache).wf(),
    ensures
        final(cache).wf(),
        final(cache)@ == ingest_all(old(cache)@, urls_of(candidates(line@))),
        *final(url_count) == count_after(*old(url_count), urls_of(candidates(line@))),
{
    let urls = extract_urls(line);
    ingest_urls(&urls, url_count, cache);
}

} // verus!

verus! {

/// The URLs that one line of text yields, in order.
pub open spec fn candidates_urls(line: Seq<char>) -> Seq<UrlView> {
    urls_of(candidates(line))
}

} // verus!

verus! {

/// The query of a URL: what follows its `?`, or nothing when it does not parse or has none.
pub fn get_parameters_from_url(url: &str) -> (r: String)
    ensures
        r@ == if url_parses(url@) && url_query(url@) is Some {
            url_query(url@)->0
        } else {
            Seq::<char>::empty()
        },
{
    match parse_url(url) {
        Some(u) => match u.query {
            Some(q) => q,
            None => String::new(),
        },
        None => String::new(),
    }
}

} // verus!
