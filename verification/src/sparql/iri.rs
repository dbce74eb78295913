use crate::sparql::lexer::{is_letter, scan, scan_in, two_at, CharClass};
use crate::sparql::text::chars_of;
use vstd::prelude::*;
use vstd::string::*;

verus! {

/// Where the components of an IRI reference stand in its text: the place of
/// the colon after the scheme, where the rest starts, whether an authority
/// follows `//` there, where the path starts and ends, whether a query
/// follows `?`, and where the query ends and the fragment may start.
#[derive(Clone, Copy, PartialEq, Eq, Structural, Debug)]
pub struct Marks {
    pub scheme: Option<usize>,
    pub start: usize,
    pub authority: bool,
    pub path: usize,
    pub path_end: usize,
    pub query: bool,
    pub query_end: usize,
    pub len: usize,
}

/// The place of the colon after the scheme: the text starts with a letter,
/// and letters, digits, `+`, `-` and `.` stand up to the colon.
pub open spec fn scheme_end(s: Seq<char>) -> Option<usize> {
    let k = scan(s, 0, CharClass::Scheme);
    if s.len() > 0 && is_letter(s[0]) && 0 < k < s.len() && s[k] == ':' {
        Some(k as usize)
    } else {
        None
    }
}

/// Where the components of an IRI reference stand.
pub open spec fn marks(s: Seq<char>) -> Marks {
    let start: int = match scheme_end(s) {
        Some(colon) => colon + 1,
        None => 0,
    };
    let authority = two_at(s, start, '/', '/');
    let path = if authority {
        scan(s, start + 2, CharClass::Authority)
    } else {
        start
    };
    let path_end = scan(s, path, CharClass::Path);
    let query = 0 <= path_end < s.len() && s[path_end] == '?';
    let query_end = if query {
        scan(s, path_end + 1, CharClass::Query)
    } else {
        path_end
    };
    Marks {
        scheme: scheme_end(s),
        start: start as usize,
        authority,
        path: path as usize,
        path_end: path_end as usize,
        query,
        query_end: query_end as usize,
        len: s.len() as usize,
    }
}

/// The components of an IRI reference.
pub struct Parts {
    pub scheme: Option<Seq<char>>,
    pub authority: Option<Seq<char>>,
    pub path: Seq<char>,
    pub query: Option<Seq<char>>,
    pub fragment: Option<Seq<char>>,
}

/// The components of an IRI reference: the scheme before the first colon,
/// the authority after `//`, the path up to `?` or `#`, the query after `?`
/// and the fragment after `#`.
pub open spec fn parts_of(s: Seq<char>) -> Parts {
    let m = marks(s);
    Parts {
        scheme: match m.scheme {
            Some(colon) => Some(s.subrange(0, colon as int)),
            None => None,
        },
        authority: if m.authority {
            Some(s.subrange(m.start + 2, m.path as int))
        } else {
            None
        },
        path: s.subrange(m.path as int, m.path_end as int),
        query: if m.query {
            Some(s.subrange(m.path_end + 1, m.query_end as int))
        } else {
            None
        },
        fragment: if m.query_end < m.len {
            Some(s.subrange(m.query_end + 1, m.len as int))
        } else {
            None
        },
    }
}

/// Whether the character `c` stands at `i`.
pub open spec fn char_is(path: Seq<char>, i: int, c: char) -> bool {
    0 <= i < path.len() && path[i] == c
}

/// The segments without the last of them.
pub open spec fn without_last(kept: Seq<Seq<char>>) -> Seq<Seq<char>> {
    if kept.len() > 0 {
        kept.drop_last()
    } else {
        kept
    }
}

/// The segments of a path from `i` on without `.` and `..`, after those
/// that were kept: `./` and `../` at the start are passed over, `/./` is
/// read as `/`, `/../` is read as `/` and takes back the last segment that
/// was kept, and every other segment is kept with the slash before it.
pub open spec fn remove_dots(path: Seq<char>, i: int, kept: Seq<Seq<char>>) -> Seq<Seq<char>>
    decreases path.len() - i,
{
    let dot = char_is(path, i, '.');
    let slash_dot = char_is(path, i, '/') && char_is(path, i + 1, '.');
    if i < 0 || i >= path.len() {
        kept
    } else if dot && char_is(path, i + 1, '.') && char_is(path, i + 2, '/') {
        remove_dots(path, i + 3, kept)
    } else if dot && char_is(path, i + 1, '/') {
        remove_dots(path, i + 2, kept)
    } else if slash_dot && char_is(path, i + 2, '/') {
        remove_dots(path, i + 2, kept)
    } else if slash_dot && i + 2 == path.len() {
        kept.push(seq!['/'])
    } else if slash_dot && char_is(path, i + 2, '.') && char_is(path, i + 3, '/') {
        remove_dots(path, i + 3, without_last(kept))
    } else if slash_dot && char_is(path, i + 2, '.') && i + 3 == path.len() {
        without_last(kept).push(seq!['/'])
    } else if dot && (i + 1 == path.len() || (char_is(path, i + 1, '.') && i + 2 == path.len())) {
        kept
    } else {
        let end = scan(path, i + 1, CharClass::Segment);
        if i < end <= path.len() {
            remove_dots(path, end, kept.push(path.subrange(i, end)))
        } else {
            kept
        }
    }
}

/// The segments one after the other.
pub open spec fn joined(kept: Seq<Seq<char>>) -> Seq<char>
    decreases kept.len(),
{
    if kept.len() == 0 {
        Seq::empty()
    } else {
        joined(kept.drop_last()) + kept.last()
    }
}

/// A path without its `.` and `..` segments.
pub open spec fn dotless(path: Seq<char>) -> Seq<char> {
    joined(remove_dots(path, 0, Seq::empty()))
}

/// How many characters of the first `n` of a path stand up to its last
/// slash, the slash included.
pub open spec fn dir_end(path: Seq<char>, n: int) -> int
    decreases n,
{
    if n <= 0 || n > path.len() {
        0
    } else if path[n - 1] == '/' {
        n
    } else {
        dir_end(path, n - 1)
    }
}

/// The path of a reference that is relative to the path of a base: the
/// base's path up to its last slash, then the reference's path.
pub open spec fn merged(base: Parts, path: Seq<char>) -> Seq<char> {
    if base.authority is Some && base.path.len() == 0 {
        seq!['/'] + path
    } else {
        base.path.subrange(0, dir_end(base.path, base.path.len() as int)) + path
    }
}

/// The components of the IRI that a reference stands for under a base.
pub open spec fn target_of(base: Parts, reference: Parts) -> Parts {
    if reference.scheme is Some {
        Parts {
            scheme: reference.scheme,
            authority: reference.authority,
            path: dotless(reference.path),
            query: reference.query,
            fragment: reference.fragment,
        }
    } else if reference.authority is Some {
        Parts {
            scheme: base.scheme,
            authority: reference.authority,
            path: dotless(reference.path),
            query: reference.query,
            fragment: reference.fragment,
        }
    } else if reference.path.len() == 0 {
        Parts {
            scheme: base.scheme,
            authority: base.authority,
            path: base.path,
            query: if reference.query is Some {
                reference.query
            } else {
                base.query
            },
            fragment: reference.fragment,
        }
    } else if reference.path[0] == '/' {
        Parts {
            scheme: base.scheme,
            authority: base.authority,
            path: dotless(reference.path),
            query: reference.query,
            fragment: reference.fragment,
        }
    } else {
        Parts {
            scheme: base.scheme,
            authority: base.authority,
            path: dotless(merged(base, reference.path)),
            query: reference.query,
            fragment: reference.fragment,
        }
    }
}

/// A component with what marks it, nothing where there is none.
pub open spec fn marked(before: Seq<char>, part: Option<Seq<char>>, after: Seq<char>) -> Seq<char> {
    match part {
        Some(text) => before + text + after,
        None => Seq::empty(),
    }
}

/// The text of an IRI with the given components.
pub open spec fn recomposed(parts: Parts) -> Seq<char> {
    marked(Seq::empty(), parts.scheme, seq![':']) + marked(
        seq!['/', '/'],
        parts.authority,
        Seq::empty(),
    ) + parts.path + marked(seq!['?'], parts.query, Seq::empty()) + marked(
        seq!['#'],
        parts.fragment,
        Seq::empty(),
    )
}

/// The IRI that a reference stands for under a base IRI, as RFC 3986
/// resolves references: the reference itself without its dot segments where
/// it has a scheme; else the scheme of the base, with the authority of the
/// reference or of the base, the path of the reference taken from the root
/// or from the directory of the base, and the query and the fragment of the
/// reference.
pub open spec fn resolve_reference(base: Seq<char>, reference: Seq<char>) -> Seq<char> {
    recomposed(target_of(parts_of(base), parts_of(reference)))
}

/// Where the components of an IRI reference stand.
pub fn mark(chars: &Vec<char>) -> (m: Marks)
    ensures
        m == marks(chars@),
        m.start <= m.path <= m.path_end <= m.query_end <= m.len == chars@.len(),
        m.scheme matches Some(colon) ==> colon < m.start,
        m.authority ==> m.start + 2 <= m.path,
        m.query ==> m.path_end < m.query_end,
{
    let len = chars.len();
    let k = scan_in(chars, 0, CharClass::Scheme);
    let first = len > 0 && (('a' <= chars[0] && chars[0] <= 'z') || ('A' <= chars[0] && chars[0]
        <= 'Z'));
    let scheme = if first && 0 < k && k < len && chars[k] == ':' {
        Some(k)
    } else {
        None
    };
    let start: usize = match scheme {
        Some(colon) => colon + 1,
        None => 0,
    };
    let authority = len - start >= 2 && chars[start] == '/' && chars[start + 1] == '/';
    let path = if authority {
        scan_in(chars, start + 2, CharClass::Authority)
    } else {
        start
    };
    let path_end = scan_in(chars, path, CharClass::Path);
    let query = path_end < len && chars[path_end] == '?';
    let query_end = if query {
        scan_in(chars, path_end + 1, CharClass::Query)
    } else {
        path_end
    };
    Marks { scheme, start, authority, path, path_end, query, query_end, len }
}

/// The segments that stand at the given places of a path.
pub open spec fn segments_at(places: Seq<(usize, usize)>, path: Seq<char>) -> Seq<Seq<char>> {
    Seq::new(places.len(), |k: int| path.subrange(places[k].0 as int, places[k].1 as int))
}

/// Appends a path without its `.` and `..` segments.
#[verifier::loop_isolation(false)]
pub fn append_dotless(out: &mut String, path: &str)
    ensures
        final(out)@ == old(out)@ + dotless(path@),
{
    let chars = chars_of(path);
    let len = chars.len();
    let mut places: Vec<(usize, usize)> = Vec::new();
    let mut i: usize = 0;
    assert(segments_at(places@, chars@) =~= Seq::<Seq<char>>::empty());
    while i < len
        invariant
            i <= len,
            forall|k: int| 0 <= k < places@.len() ==> (#[trigger] places@[k]).0 <= places@[k].1 <= len,
            remove_dots(chars@, i as int, segments_at(places@, chars@)) == remove_dots(
                chars@,
                0,
                Seq::empty(),
            ),
        decreases len - i,
    {
        let ghost kept = segments_at(places@, chars@);
        let c = chars[i];
        let one = if len - i > 1 { chars[i + 1] } else { ' ' };
        let two = if len - i > 2 { chars[i + 2] } else { ' ' };
        let three = if len - i > 3 { chars[i + 3] } else { ' ' };
        if c == '.' && one == '.' && two == '/' {
            i = i + 3;
        } else if c == '.' && one == '/' {
            i = i + 2;
        } else if c == '/' && one == '.' && two == '/' {
            i = i + 2;
        } else if c == '/' && one == '.' && len - i == 2 {
            places.push((i, i + 1));
            assert(segments_at(places@, chars@) =~= kept.push(seq!['/'])) by {
                assert(chars@.subrange(i as int, i + 1) =~= seq!['/']);
            }
            i = len;
        } else if c == '/' && one == '.' && two == '.' && three == '/' {
            if places.len() > 0 {
                places.pop();
            }
            assert(segments_at(places@, chars@) =~= without_last(kept));
            i = i + 3;
        } else if c == '/' && one == '.' && two == '.' && len - i == 3 {
            if places.len() > 0 {
                places.pop();
            }
            let ghost fewer = segments_at(places@, chars@);
            assert(fewer =~= without_last(kept));
            places.push((i, i + 1));
            assert(segments_at(places@, chars@) =~= fewer.push(seq!['/'])) by {
                assert(chars@.subrange(i as int, i + 1) =~= seq!['/']);
            }
            i = len;
        } else if c == '.' && (len - i == 1 || (one == '.' && len - i == 2)) {
            i = len;
        } else {
            let end = scan_in(&chars, i + 1, CharClass::Segment);
            places.push((i, end));
            assert(segments_at(places@, chars@) =~= kept.push(
                chars@.subrange(i as int, end as int),
            ));
            i = end;
        }
    }
    let ghost kept = segments_at(places@, chars@);
    let mut k: usize = 0;
    assert(joined(kept.subrange(0, 0)) =~= Seq::<char>::empty());
    assert(old(out)@ + Seq::<char>::empty() =~= old(out)@);
    while k < places.len()
        invariant
            k <= places@.len(),
            out@ == old(out)@ + joined(kept.subrange(0, k as int)),
        decreases places@.len() - k,
    {
        let place = places[k];
        let ghost before = joined(kept.subrange(0, k as int));
        out.append(path.substring_char(place.0, place.1));
        proof {
            let next = kept.subrange(0, k + 1);
            assert(next.drop_last() =~= kept.subrange(0, k as int));
            assert(next.last() == kept[k as int]);
            assert((old(out)@ + before) + kept[k as int] =~= old(out)@ + (before + kept[k as int]));
        }
        k = k + 1;
    }
    assert(kept.subrange(0, k as int) =~= kept);
}

/// How many characters of a path stand up to its last slash.
#[verifier::loop_isolation(false)]
fn dir_end_in(chars: &Vec<char>, from: usize, to: usize) -> (n: usize)
    requires
        from <= to <= chars@.len(),
    ensures
        n == dir_end(chars@.subrange(from as int, to as int), to - from),
        n <= to - from,
{
    let ghost path = chars@.subrange(from as int, to as int);
    let mut n: usize = to - from;
    while n > 0 && chars[from + n - 1] != '/'
        invariant
            n <= to - from,
            path == chars@.subrange(from as int, to as int),
            dir_end(path, (to - from) as int) == dir_end(path, n as int),
        decreases n,
    {
        n = n - 1;
    }
    n
}

/// Whether the marks stand in order inside the text.
pub open spec fn in_order(m: Marks) -> bool {
    &&& m.start <= m.path <= m.path_end <= m.query_end <= m.len
    &&& m.scheme matches Some(colon) ==> colon < m.start
    &&& m.authority ==> m.start + 2 <= m.path
    &&& m.query ==> m.path_end < m.query_end
}

/// Whether a reference has neither a scheme nor an authority.
pub open spec fn is_relative(r: Marks) -> bool {
    r.scheme is None && !r.authority
}

fn append_scheme(out: &mut String, base: &str, reference: &str, b: Marks, r: Marks)
    requires
        b == marks(base@),
        r == marks(reference@),
        in_order(b),
        in_order(r),
    ensures
        final(out)@ == old(out)@ + marked(
            Seq::empty(),
            target_of(parts_of(base@), parts_of(reference@)).scheme,
            seq![':'],
        ),
{
    proof {
        reveal_strlit(":");
    }
    let ghost wanted = marked(
        Seq::empty(),
        target_of(parts_of(base@), parts_of(reference@)).scheme,
        seq![':'],
    );
    match r.scheme {
        Some(colon) => {
            out.append(reference.substring_char(0, colon));
            out.append(":");
        },
        None => match b.scheme {
            Some(colon) => {
                out.append(base.substring_char(0, colon));
                out.append(":");
            },
            None => {},
        },
    }
    assert(out@ =~= old(out)@ + wanted);
}

fn append_authority(out: &mut String, base: &str, reference: &str, b: Marks, r: Marks)
    requires
        b == marks(base@),
        r == marks(reference@),
        in_order(b),
        in_order(r),
    ensures
        final(out)@ == old(out)@ + marked(
            seq!['/', '/'],
            target_of(parts_of(base@), parts_of(reference@)).authority,
            Seq::empty(),
        ),
{
    proof {
        reveal_strlit("//");
    }
    let ghost wanted = marked(
        seq!['/', '/'],
        target_of(parts_of(base@), parts_of(reference@)).authority,
        Seq::empty(),
    );
    if r.scheme.is_some() || r.authority {
        if r.authority {
            out.append("//");
            out.append(reference.substring_char(r.start + 2, r.path));
        }
    } else if b.authority {
        out.append("//");
        out.append(base.substring_char(b.start + 2, b.path));
    }
    assert(out@ =~= old(out)@ + wanted);
}

/// The path of a reference before its dot segments are taken out: from the
/// directory of the base where the reference is relative and its path does
/// not start at the root.
fn path_before(base: &str, reference: &str, b: Marks, r: Marks) -> (path: String)
    requires
        b == marks(base@),
        r == marks(reference@),
        in_order(b),
        in_order(r),
        r.path < r.path_end || !is_relative(r),
    ensures
        path@ == if is_relative(r) && parts_of(reference@).path[0] != '/' {
            merged(parts_of(base@), parts_of(reference@).path)
        } else {
            parts_of(reference@).path
        },
{
    proof {
        reveal_strlit("/");
    }
    let ghost from = parts_of(base@);
    let ghost to = parts_of(reference@);
    let mut path = String::new();
    let relative = r.scheme.is_none() && !r.authority;
    if relative && reference.get_char(r.path) != '/' {
        assert(to.path[0] == reference@[r.path as int]);
        if b.authority && b.path == b.path_end {
            path.append("/");
        } else {
            let base_chars = chars_of(base);
            let n = dir_end_in(&base_chars, b.path, b.path_end);
            path.append(base.substring_char(b.path, b.path + n));
            assert(path@ =~= from.path.subrange(0, n as int));
        }
        path.append(reference.substring_char(r.path, r.path_end));
        assert(path@ =~= merged(from, to.path));
    } else {
        path.append(reference.substring_char(r.path, r.path_end));
        assert(path@ =~= to.path);
        if relative {
            assert(to.path[0] == reference@[r.path as int]);
        }
    }
    path
}

fn append_path(out: &mut String, base: &str, reference: &str, b: Marks, r: Marks)
    requires
        b == marks(base@),
        r == marks(reference@),
        in_order(b),
        in_order(r),
    ensures
        final(out)@ == old(out)@ + target_of(parts_of(base@), parts_of(reference@)).path,
{
    if r.scheme.is_none() && !r.authority && r.path == r.path_end {
        out.append(base.substring_char(b.path, b.path_end));
    } else {
        let path = path_before(base, reference, b, r);
        append_dotless(out, path.as_str());
    }
}

fn append_query(out: &mut String, base: &str, reference: &str, b: Marks, r: Marks)
    requires
        b == marks(base@),
        r == marks(reference@),
        in_order(b),
        in_order(r),
    ensures
        final(out)@ == old(out)@ + marked(
            seq!['?'],
            target_of(parts_of(base@), parts_of(reference@)).query,
            Seq::empty(),
        ),
{
    proof {
        reveal_strlit("?");
    }
    let ghost wanted = marked(
        seq!['?'],
        target_of(parts_of(base@), parts_of(reference@)).query,
        Seq::empty(),
    );
    if r.query {
        out.append("?");
        out.append(reference.substring_char(r.path_end + 1, r.query_end));
    } else if r.scheme.is_none() && !r.authority && r.path == r.path_end && b.query {
        out.append("?");
        out.append(base.substring_char(b.path_end + 1, b.query_end));
    }
    assert(out@ =~= old(out)@ + wanted);
}

fn append_fragment(out: &mut String, base: &str, reference: &str, b: Marks, r: Marks)
    requires
        b == marks(base@),
        r == marks(reference@),
        in_order(b),
        in_order(r),
    ensures
        final(out)@ == old(out)@ + marked(
            seq!['#'],
            target_of(parts_of(base@), parts_of(reference@)).fragment,
            Seq::empty(),
        ),
{
    proof {
        reveal_strlit("#");
    }
    let ghost wanted = marked(
        seq!['#'],
        target_of(parts_of(base@), parts_of(reference@)).fragment,
        Seq::empty(),
    );
    if r.query_end < r.len {
        out.append("#");
        out.append(reference.substring_char(r.query_end + 1, r.len));
    }
    assert(out@ =~= old(out)@ + wanted);
}

/// The IRI that a reference stands for under a base IRI.
pub fn resolve_against(base: &str, reference: &str) -> (resolved: String)
    ensures
        resolved@ == resolve_reference(base@, reference@),
{
    let base_chars = chars_of(base);
    let chars = chars_of(reference);
    let b = mark(&base_chars);
    let r = mark(&chars);
    let mut out = String::new();
    append_scheme(&mut out, base, reference, b, r);
    append_authority(&mut out, base, reference, b, r);
    append_path(&mut out, base, reference, b, r);
    append_query(&mut out, base, reference, b, r);
    append_fragment(&mut out, base, reference, b, r);
    assert(out@ =~= resolve_reference(base@, reference@));
    out
}

} // verus!
