use vstd::prelude::*;
use vstd::std_specs::iter::IteratorSpec;

verus! {

/// The characters of `s`, in order.
pub(crate) fn chars_of(s: &str) -> (r: Vec<char>)
    ensures
        r@ == s@,
{
    broadcast use vstd::string::axiom_spec_iter, vstd::string::next_postcondition;

    let n = s.unicode_len();
    let mut it = s.chars();
    let mut v: Vec<char> = Vec::new();
    assert(Seq::<char>::empty() + it.remaining() =~= s@);
    while v.len() < n
        invariant
            n == s@.len(),
            v@.len() <= n,
            it.obeys_prophetic_iter_laws(),
            v@ + it.remaining() == s@,
        decreases n - v@.len(),
    {
        let ghost pre = v@;
        match it.next() {
            Some(c) => {
                v.push(c);
                assert(v@ + it.remaining() =~= pre + seq![c] + it.remaining());
            },
            None => {
                assert(false);
            },
        }
    }
    assert(v@ + it.remaining() == s@);
    assert(v@ =~= s@);
    v
}

/// Relies on `FromIterator<char> for String`: the string holds the given characters in order.
#[verifier::external_body]
pub(crate) fn string_of(v: &[char]) -> (r: String)
    ensures
        r@ == v@,
{
    v.iter().collect()
}

/// Whether two strings hold the same characters.
pub fn same_text(a: &str, b: &str) -> (r: bool)
    ensures
        r == (a@ == b@),
{
    let n = a.unicode_len();
    let m = b.unicode_len();
    if n != m {
        return false;
    }
    let mut i: usize = 0;
    while i < n
        invariant
            n == a@.len(),
            m == b@.len(),
            n == m,
            i <= n,
            a@.subrange(0, i as int) == b@.subrange(0, i as int),
        decreases n - i,
    {
        if a.get_char(i) != b.get_char(i) {
            return false;
        }
        assert(a@.subrange(0, i + 1) == a@.subrange(0, i as int).push(a@[i as int]));
        assert(b@.subrange(0, i + 1) == b@.subrange(0, i as int).push(b@[i as int]));
        i = i + 1;
    }
    assert(a@ == a@.subrange(0, n as int));
    assert(b@ == b@.subrange(0, n as int));
    true
}

} // verus!

verus! {

/// The Unicode White_Space property, the test of `char::is_whitespace` and `str::trim`.
pub open spec fn white_space(c: char) -> bool {
    let u = c as u32;
    (0x9 <= u <= 0xd) || u == 0x20 || u == 0x85 || u == 0xa0 || u == 0x1680 || (0x2000 <= u
        <= 0x200a) || u == 0x2028 || u == 0x2029 || u == 0x202f || u == 0x205f || u == 0x3000
}

/// Whether `c` has the Unicode White_Space property.
pub fn is_whitespace(c: char) -> (r: bool)
    ensures
        r == white_space(c),
{
    let u = c as u32;
    (0x9 <= u && u <= 0xd) || u == 0x20 || u == 0x85 || u == 0xa0 || u == 0x1680 || (0x2000 <= u
        && u <= 0x200a) || u == 0x2028 || u == 0x2029 || u == 0x202f || u == 0x205f || u == 0x3000
}

/// The characters that split a line into candidate URLs.
pub open spec fn is_delim(c: char) -> bool {
    c == '<' || c == '>' || c == '"'
}

/// The pieces of `s` between delimiters, empty ones included.
pub open spec fn pieces(s: Seq<char>) -> Seq<Seq<char>>
    decreases s.len(),
{
    if s.len() == 0 {
        seq![Seq::empty()]
    } else {
        let p = pieces(s.drop_last());
        if is_delim(s.last()) {
            p.push(Seq::empty())
        } else {
            p.update(p.len() - 1, p.last().push(s.last()))
        }
    }
}

pub open spec fn trim_start(s: Seq<char>) -> Seq<char>
    decreases s.len(),
{
    if s.len() > 0 && white_space(s[0]) {
        trim_start(s.drop_first())
    } else {
        s
    }
}

pub open spec fn trim_end(s: Seq<char>) -> Seq<char>
    decreases s.len(),
{
    if s.len() > 0 && white_space(s.last()) {
        trim_end(s.drop_last())
    } else {
        s
    }
}

/// `s` without leading and trailing white space.
pub open spec fn trimmed(s: Seq<char>) -> Seq<char> {
    trim_end(trim_start(s))
}

/// `s` with each space written `%20`.
pub open spec fn escape_spaces(s: Seq<char>) -> Seq<char>
    decreases s.len(),
{
    if s.len() == 0 {
        s
    } else {
        escape_spaces(s.drop_last()) + if s.last() == ' ' {
            seq!['%', '2', '0']
        } else {
            seq![s.last()]
        }
    }
}

/// The trimmed, escaped pieces that are not empty.
pub open spec fn cleaned(ps: Seq<Seq<char>>) -> Seq<Seq<char>>
    decreases ps.len(),
{
    if ps.len() == 0 {
        Seq::empty()
    } else {
        let t = trimmed(ps.last());
        if t.len() == 0 {
            cleaned(ps.drop_last())
        } else {
            cleaned(ps.drop_last()).push(escape_spaces(t))
        }
    }
}

/// The candidate URLs of a line.
pub open spec fn candidates(line: Seq<char>) -> Seq<Seq<char>> {
    cleaned(pieces(line))
}

proof fn lemma_trim_start_skip(s: Seq<char>, lo: int)
    requires
        0 <= lo <= s.len(),
        forall|j: int| 0 <= j < lo ==> white_space(#[trigger] s[j]),
    ensures
        trim_start(s) == trim_start(s.subrange(lo, s.len() as int)),
    decreases lo,
{
    if lo > 0 {
        assert(s.drop_first().subrange(lo - 1, s.drop_first().len() as int) =~= s.subrange(lo, s.len() as int));
        assert forall|j: int| 0 <= j < lo - 1 implies white_space(#[trigger] s.drop_first()[j]) by {
            assert(s.drop_first()[j] == s[j + 1]);
        }
        lemma_trim_start_skip(s.drop_first(), lo - 1);
    } else {
        assert(s.subrange(0, s.len() as int) =~= s);
    }
}

proof fn lemma_trim_end_skip(s: Seq<char>, hi: int)
    requires
        0 <= hi <= s.len(),
        forall|j: int| hi <= j < s.len() ==> white_space(#[trigger] s[j]),
    ensures
        trim_end(s) == trim_end(s.subrange(0, hi)),
    decreases s.len() - hi,
{
    if hi < s.len() {
        assert(s.drop_last().subrange(0, hi) =~= s.subrange(0, hi));
        lemma_trim_end_skip(s.drop_last(), hi);
    } else {
        assert(s.subrange(0, hi) =~= s);
    }
}

/// Bounds of `v[from..to]` without leading and trailing white space.
fn trim_bounds(v: &Vec<char>, from: usize, to: usize) -> (r: (usize, usize))
    requires
        from <= to <= v@.len(),
    ensures
        from <= r.0 <= r.1 <= to,
        v@.subrange(r.0 as int, r.1 as int) == trimmed(v@.subrange(from as int, to as int)),
{
    let ghost s = v@.subrange(from as int, to as int);
    let mut lo = from;
    while lo < to && is_whitespace(v[lo])
        invariant
            from <= lo <= to <= v@.len(),
            forall|j: int| from <= j < lo ==> white_space(#[trigger] v@[j]),
        decreases to - lo,
    {
        lo = lo + 1;
    }
    proof {
        assert forall|j: int| 0 <= j < lo - from implies white_space(#[trigger] s[j]) by {
            assert(s[j] == v@[from + j]);
        }
        lemma_trim_start_skip(s, lo - from);
        assert(s.subrange(lo - from, s.len() as int) =~= v@.subrange(lo as int, to as int));
        let t = v@.subrange(lo as int, to as int);
        if t.len() > 0 {
            assert(t[0] == v@[lo as int]);
        }
        assert(trim_start(t) == t);
    }
    let mut hi = to;
    while hi > lo && is_whitespace(v[hi - 1])
        invariant
            from <= lo <= hi <= to <= v@.len(),
            forall|j: int| hi <= j < to ==> white_space(#[trigger] v@[j]),
        decreases hi - lo,
    {
        hi = hi - 1;
    }
    proof {
        let t = v@.subrange(lo as int, to as int);
        assert forall|j: int| hi - lo <= j < t.len() implies white_space(#[trigger] t[j]) by {
            assert(t[j] == v@[lo + j]);
        }
        lemma_trim_end_skip(t, hi - lo);
        let w = t.subrange(0, hi - lo);
        assert(w =~= v@.subrange(lo as int, hi as int));
        if w.len() > 0 {
            assert(w.last() == v@[hi - 1]);
        }
        assert(trim_end(w) == w);
    }
    (lo, hi)
}

/// Appends `v[lo..hi]` to `out` with each space written `%20`.
fn push_escaped(v: &Vec<char>, lo: usize, hi: usize, out: &mut Vec<char>)
    requires
        lo <= hi <= v@.len(),
    ensures
        final(out)@ == old(out)@ + escape_spaces(v@.subrange(lo as int, hi as int)),
{
    let mut i = lo;
    while i < hi
        invariant
            lo <= i <= hi <= v@.len(),
            out@ == old(out)@ + escape_spaces(v@.subrange(lo as int, i as int)),
        decreases hi - i,
    {
        let c = v[i];
        let ghost pre = out@;
        if c == ' ' {
            out.push('%');
            out.push('2');
            out.push('0');
        } else {
            out.push(c);
        }
        proof {
            let t = v@.subrange(lo as int, i + 1);
            assert(t.drop_last() =~= v@.subrange(lo as int, i as int));
            assert(t.last() == c);
            assert(out@ =~= old(out)@ + escape_spaces(t));
        }
        i = i + 1;
    }
}

/// Appends to `out` the candidate that the piece `v[start..end]` gives, if any.
fn emit_piece(v: &Vec<char>, start: usize, end: usize, out: &mut Vec<String>)
    requires
        start <= end <= v@.len(),
    ensures
        final(out)@.map_values(|s: String| s@) == (if trimmed(v@.subrange(start as int, end as int)).len() == 0 {
            old(out)@.map_values(|s: String| s@)
        } else {
            old(out)@.map_values(|s: String| s@).push(escape_spaces(trimmed(v@.subrange(start as int, end as int))))
        }),
{
    let (lo, hi) = trim_bounds(v, start, end);
    if lo < hi {
        let mut chars: Vec<char> = Vec::new();
        push_escaped(v, lo, hi, &mut chars);
        out.push(string_of(chars.as_slice()));
        assert(final(out)@.map_values(|s: String| s@) =~= old(out)@.map_values(|s: String| s@).push(
            escape_spaces(trimmed(v@.subrange(start as int, end as int))),
        ));
    }
}

/// The candidate URLs of a line: the pieces between `<`, `>` and `"`, trimmed of white
/// space, the empty ones dropped, with each space written `%20`.
pub fn extract_candidates(line: &str) -> (r: Vec<String>)
    ensures
        r@.map_values(|s: String| s@) == candidates(line@),
{
    let v = chars_of(line);
    let mut r: Vec<String> = Vec::new();
    let ghost mut done: Seq<Seq<char>> = Seq::empty();
    let mut start: usize = 0;
    let mut i: usize = 0;
    assert(v@.subrange(0, 0) =~= Seq::<char>::empty());
    assert(pieces(Seq::<char>::empty()) =~= done.push(Seq::<char>::empty()));
    while i < v.len()
        invariant
            v@ == line@,
            start <= i <= v@.len(),
            pieces(v@.subrange(0, i as int)) == done.push(v@.subrange(start as int, i as int)),
            r@.map_values(|s: String| s@) == cleaned(done),
        decreases v@.len() - i,
    {
        let ghost t = v@.subrange(0, i + 1);
        proof {
            assert(t.drop_last() =~= v@.subrange(0, i as int));
        }
        if v[i] == '<' || v[i] == '>' || v[i] == '"' {
            let ghost piece = v@.subrange(start as int, i as int);
            emit_piece(&v, start, i, &mut r);
            proof {
                let nd = done.push(piece);
                assert(nd.drop_last() =~= done);
                assert(v@.subrange(i + 1, i + 1) =~= Seq::<char>::empty());
                done = nd;
            }
            start = i + 1;
        } else {
            proof {
                assert(v@.subrange(start as int, i + 1) =~= v@.subrange(start as int, i as int).push(v@[i as int]));
                assert(pieces(t) =~= done.push(v@.subrange(start as int, i + 1)));
            }
        }
        i = i + 1;
    }
    let ghost piece = v@.subrange(start as int, i as int);
    emit_piece(&v, start, i, &mut r);
    proof {
        let nd = done.push(piece);
        assert(nd.drop_last() =~= done);
        assert(v@.subrange(0, i as int) =~= v@);
    }
    r
}

} // verus!

verus! {

/// Position of the last `.` in `s`, or -1.
pub open spec fn last_dot(s: Seq<char>) -> int {
    last_of(s, '.')
}

/// Position of the last `c` in `s`, or -1.
pub open spec fn last_of(s: Seq<char>, c: char) -> int
    decreases s.len(),
{
    if s.len() == 0 {
        -1
    } else if s.last() == c {
        s.len() - 1
    } else {
        last_of(s.drop_last(), c)
    }
}

proof fn lemma_last_of(s: Seq<char>, c: char)
    ensures
        -1 <= last_of(s, c) < s.len(),
        last_of(s, c) >= 0 ==> s[last_of(s, c)] == c,
        forall|j: int| last_of(s, c) < j < s.len() ==> s[j] != c,
    decreases s.len(),
{
    if s.len() > 0 && s.last() != c {
        let d = s.drop_last();
        lemma_last_of(d, c);
        assert forall|j: int| last_of(s, c) < j < s.len() implies s[j] != c by {
            if j < d.len() {
                assert(s[j] == d[j]);
            }
        }
    }
}

/// The text after the last `.` of `name`, if it holds one.
pub fn get_extension(name: &str) -> (r: Option<&str>)
    ensures
        match r {
            Some(e) => last_dot(name@) >= 0 && e@ == name@.subrange(last_dot(name@) + 1, name@.len() as int),
            None => last_dot(name@) < 0,
        },
{
    proof {
        lemma_last_of(name@, '.');
    }
    let n = name.unicode_len();
    match find_last(name, '.') {
        Some(i) => Some(name.substring_char(i + 1, n)),
        None => None,
    }
}

proof fn lemma_last_of_at(s: Seq<char>, c: char, i: int)
    requires
        0 <= i < s.len(),
        s[i] == c,
        forall|j: int| i < j < s.len() ==> s[j] != c,
    ensures
        last_of(s, c) == i,
    decreases s.len(),
{
    if s.last() != c {
        let d = s.drop_last();
        assert forall|j: int| i < j < d.len() implies d[j] != c by {
            assert(d[j] == s[j]);
        }
        lemma_last_of_at(d, c, i);
    }
}

/// Position of the last `c` in `s`, or `None`.
fn find_last(s: &str, c: char) -> (r: Option<usize>)
    ensures
        match r {
            Some(i) => i < s@.len() && last_of(s@, c) == i,
            None => last_of(s@, c) < 0,
        },
{
    let n = s.unicode_len();
    let mut i = n;
    proof {
        lemma_last_of(s@, c);
    }
    while i > 0
        invariant
            n == s@.len(),
            i <= n,
            forall|j: int| i <= j < n ==> s@[j] != c,
        decreases i,
    {
        if s.get_char(i - 1) == c {
            proof {
                lemma_last_of_at(s@, c, i - 1);
            }
            return Some(i - 1);
        }
        i = i - 1;
    }
    proof {
        if last_of(s@, c) >= 0 {
            assert(s@[last_of(s@, c)] == c);
        }
    }
    None
}

/// Position of the first `c` in `s`, or the length of `s`.
pub open spec fn first_of(s: Seq<char>, c: char) -> int
    decreases s.len(),
{
    if s.len() == 0 {
        0
    } else if s[0] == c {
        0
    } else {
        1 + first_of(s.drop_first(), c)
    }
}

/// `s` up to its first `c`.
pub open spec fn before_first(s: Seq<char>, c: char) -> Seq<char> {
    s.subrange(0, first_of(s, c))
}

/// `s` after its last `c` (all of `s` without one).
pub open spec fn after_last(s: Seq<char>, c: char) -> Seq<char> {
    s.subrange(last_of(s, c) + 1, s.len() as int)
}

proof fn lemma_first_of(s: Seq<char>, c: char)
    ensures
        0 <= first_of(s, c) <= s.len(),
        first_of(s, c) < s.len() ==> s[first_of(s, c)] == c,
        forall|j: int| 0 <= j < first_of(s, c) ==> s[j] != c,
    decreases s.len(),
{
    if s.len() > 0 && s[0] != c {
        let d = s.drop_first();
        lemma_first_of(d, c);
        assert forall|j: int| 0 <= j < first_of(s, c) implies s[j] != c by {
            if j > 0 {
                assert(s[j] == d[j - 1]);
            }
        }
    }
}

proof fn lemma_first_of_at(s: Seq<char>, c: char, i: int)
    requires
        0 <= i <= s.len(),
        i < s.len() ==> s[i] == c,
        forall|j: int| 0 <= j < i ==> s[j] != c,
    ensures
        first_of(s, c) == i,
    decreases s.len(),
{
    if s.len() > 0 && s[0] != c {
        let d = s.drop_first();
        assert forall|j: int| 0 <= j < i - 1 implies d[j] != c by {
            assert(d[j] == s[j + 1]);
        }
        if i - 1 < d.len() {
            assert(d[i - 1] == s[i]);
        }
        lemma_first_of_at(d, c, i - 1);
    }
}

/// Position of the first `c` in `s`, or its length.
fn find_first(s: &str, c: char) -> (r: usize)
    ensures
        r == first_of(s@, c),
{
    let n = s.unicode_len();
    let mut i: usize = 0;
    while i < n && s.get_char(i) != c
        invariant
            n == s@.len(),
            i <= n,
            forall|j: int| 0 <= j < i ==> s@[j] != c,
        decreases n - i,
    {
        i = i + 1;
    }
    proof {
        lemma_first_of_at(s@, c, i as int);
    }
    i
}

/// The extension of the last path part of a URL: the text after the last `.` of what
/// follows the last `/`, cut at its first `?`, or else at its first `#`. `None` when that
/// part holds no `.`.
pub fn get_extension_from_url(url: &str) -> (r: Option<&str>)
    ensures
        match r {
            Some(e) => {
                let ext = after_last(after_last(url@, '/'), '.');
                &&& last_of(after_last(url@, '/'), '.') >= 0
                &&& e@ == if ext.contains('?') {
                    before_first(ext, '?')
                } else {
                    before_first(ext, '#')
                }
            },
            None => last_of(after_last(url@, '/'), '.') < 0,
        },
{
    proof {
        lemma_last_of(url@, '/');
    }
    let n = url.unicode_len();
    let start = match find_last(url, '/') {
        Some(i) => i + 1,
        None => 0,
    };
    let part = url.substring_char(start, n);
    proof {
        lemma_last_of(part@, '.');
    }
    let dot = match find_last(part, '.') {
        Some(i) => i,
        None => {
            return None;
        },
    };
    let m = part.unicode_len();
    let ext = part.substring_char(dot + 1, m);
    proof {
        lemma_first_of(ext@, '?');
        lemma_first_of(ext@, '#');
    }
    let q = find_first(ext, '?');
    let cut = if q < ext.unicode_len() {
        assert(ext@.contains('?'));
        q
    } else {
        assert(!ext@.contains('?')) by {
            if ext@.contains('?') {
                let j = choose|j: int| 0 <= j < ext@.len() && ext@[j] == '?';
            }
        }
        find_first(ext, '#')
    };
    Some(ext.substring_char(0, cut))
}

} // verus!
