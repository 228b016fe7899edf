//! Path arithmetic on text: components, joining, normalization, prefixes.
//!
//! A path is text with `/` as separator. Repeated separators and `.` segments
//! carry no meaning, except a `.` that begins a relative path.

use crate::text;
use crate::text::{chars_of, string_of, text_eq};
use vstd::prelude::*;
use vstd::string::*;

verus! {

// ---------------------------------------------------------------------------
// Components
// ---------------------------------------------------------------------------

/// The segments of a path between its separators.
pub open spec fn segments(path: Seq<char>) -> Seq<Seq<char>>
    decreases path.len(),
{
    if path.len() == 0 {
        seq![Seq::empty()]
    } else {
        let init = segments(path.drop_last());
        if path.last() == '/' {
            init.push(Seq::empty())
        } else {
            init.drop_last().push(init.last().push(path.last()))
        }
    }
}

/// Whether a segment names something: it is neither empty nor `.`.
pub open spec fn is_named(segment: Seq<char>) -> bool {
    segment.len() > 0 && segment != seq!['.']
}

/// Whether a path is absolute.
pub open spec fn is_rooted(path: Seq<char>) -> bool {
    path.len() > 0 && path[0] == '/'
}

/// Whether a path begins with the segment `.`.
pub open spec fn begins_here(path: Seq<char>) -> bool {
    path.len() > 0 && path[0] == '.' && (path.len() == 1 || path[1] == '/')
}

/// What precedes the named segments: the root, a leading `.`, or nothing.
pub open spec fn lead(path: Seq<char>) -> Seq<Seq<char>> {
    if is_rooted(path) {
        seq![seq!['/']]
    } else if begins_here(path) {
        seq![seq!['.']]
    } else {
        Seq::empty()
    }
}

/// The components of a path: its lead, then its named segments.
pub open spec fn components(path: Seq<char>) -> Seq<Seq<char>> {
    lead(path) + segments(path).filter(|s: Seq<char>| is_named(s))
}

/// `path` with `part` joined to it: an absolute part replaces the path.
pub open spec fn joined(path: Seq<char>, part: Seq<char>) -> Seq<char> {
    if is_rooted(part) {
        part
    } else if path.len() > 0 && path.last() != '/' {
        path.push('/') + part
    } else {
        path + part
    }
}

/// The text of a list of components.
pub open spec fn rendered(parts: Seq<Seq<char>>) -> Seq<char>
    decreases parts.len(),
{
    if parts.len() == 0 {
        Seq::empty()
    } else {
        joined(rendered(parts.drop_last()), parts.last())
    }
}

/// A component list with `.` dropped and each `..` taking back what precedes
/// it; the root stays.
pub open spec fn resolved(parts: Seq<Seq<char>>) -> Seq<Seq<char>>
    decreases parts.len(),
{
    if parts.len() == 0 {
        parts
    } else {
        let init = resolved(parts.drop_last());
        let part = parts.last();
        if part == seq!['.'] {
            init
        } else if part == seq!['.', '.'] {
            if init.len() == 0 || init.last() == seq!['/'] {
                init
            } else {
                init.drop_last()
            }
        } else {
            init.push(part)
        }
    }
}

/// The normal form of a path.
pub open spec fn normal(path: Seq<char>) -> Seq<char> {
    rendered(resolved(components(path)))
}

/// The normal form of a path taken relative to `root`.
pub open spec fn absolute(root: Seq<char>, path: Seq<char>) -> Seq<char> {
    normal(if is_rooted(path) { path } else { joined(root, path) })
}

/// Whether `path` lies at or below `base`, component by component.
pub open spec fn is_under(path: Seq<char>, base: Seq<char>) -> bool {
    components(base).is_prefix_of(components(path))
}

fn is_named_segment(s: &Vec<char>) -> (named: bool)
    ensures
        named == is_named(s@),
{
    if s.len() == 0 {
        return false;
    }
    if s.len() == 1 && s[0] == '.' {
        assert(s@ == seq!['.']);
        return false;
    }
    true
}

/// Splits a path into its components.
pub fn path_components(path: &str) -> (parts: Vec<String>)
    ensures
        text::texts(parts@) == components(path@),
{
    let chars = chars_of(path);
    let mut parts: Vec<String> = Vec::new();
    if chars.len() > 0 && chars[0] == '/' {
        parts.push("/".to_string());
        proof {
            reveal_strlit("/");
            assert("/"@ == seq!['/']);
        }
    } else if chars.len() > 0 && chars[0] == '.' && (chars.len() == 1 || chars[1] == '/') {
        parts.push(".".to_string());
        proof {
            reveal_strlit(".");
            assert("."@ == seq!['.']);
        }
    }
    let ghost named = |s: Seq<char>| is_named(s);
    let mut current: Vec<char> = Vec::new();
    proof {
        reveal(Seq::filter);
        let first = segments(chars@.take(0));
        assert(chars@.take(0) == Seq::<char>::empty());
        assert(first.drop_last() == Seq::<Seq<char>>::empty());
        assert(text::texts(parts@) == lead(path@));
        assert(text::texts(parts@) == lead(path@) + first.drop_last().filter(named));
    }
    for i in 0..chars.len()
        invariant
            chars@ == path@,
            named == |s: Seq<char>| is_named(s),
            segments(chars@.take(i as int)).len() > 0,
            current@ == segments(chars@.take(i as int)).last(),
            text::texts(parts@) == lead(path@) + segments(
                chars@.take(i as int),
            ).drop_last().filter(named),
    {
        let ghost before = segments(chars@.take(i as int));
        let ghost after = segments(chars@.take(i as int + 1));
        proof {
            assert(chars@.take(i as int + 1).drop_last() == chars@.take(i as int));
        }
        if chars[i] == '/' {
            let ghost old_parts = parts@;
            if is_named_segment(&current) {
                parts.push(string_of(current.as_slice()));
                assert(text::texts(parts@) == text::texts(old_parts).push(current@));
            }
            proof {
                reveal(Seq::filter);
                assert(after.drop_last() == before);
                assert(before.filter(named) == if is_named(before.last()) {
                    before.drop_last().filter(named).push(before.last())
                } else {
                    before.drop_last().filter(named)
                });
            }
            current = Vec::new();
        } else {
            proof {
                assert(after.drop_last() == before.drop_last());
            }
            current.push(chars[i]);
        }
    }
    proof {
        assert(chars@.take(chars@.len() as int) == path@);
        reveal(Seq::filter);
    }
    let ghost old_parts = parts@;
    if is_named_segment(&current) {
        parts.push(string_of(current.as_slice()));
        assert(text::texts(parts@) == text::texts(old_parts).push(current@));
    }
    parts
}

/// Joins a part to a path.
pub fn join_path(path: &str, part: &str) -> (result: String)
    ensures
        result@ == joined(path@, part@),
{
    let p = chars_of(part);
    if p.len() > 0 && p[0] == '/' {
        return part.to_string();
    }
    let c = chars_of(path);
    let mut result = path.to_string();
    if c.len() > 0 && c[c.len() - 1] != '/' {
        result.push('/');
    }
    result.append(part);
    result
}

/// Writes a list of components as a path.
pub fn render_path(parts: &Vec<String>) -> (result: String)
    ensures
        result@ == rendered(text::texts(parts@)),
{
    let mut result = String::new();
    for i in 0..parts.len()
        invariant
            result@ == rendered(text::texts(parts@).take(i as int)),
    {
        proof {
            assert(text::texts(parts@).take(i as int + 1).drop_last() == text::texts(parts@).take(
                i as int,
            ));
        }
        result = join_path(result.as_str(), parts[i].as_str());
    }
    assert(text::texts(parts@).take(parts@.len() as int) == text::texts(parts@));
    result
}

/// Normalizes a path by its text alone.
pub fn normalize_path(path: &str) -> (result: String)
    ensures
        result@ == normal(path@),
{
    let parts = path_components(path);
    let mut kept: Vec<String> = Vec::new();
    proof {
        reveal_strlit(".");
        reveal_strlit("..");
        reveal_strlit("/");
        assert("."@ == seq!['.']);
        assert(".."@ == seq!['.', '.']);
        assert("/"@ == seq!['/']);
        assert(text::texts(kept@) == resolved(text::texts(parts@).take(0)));
    }
    for i in 0..parts.len()
        invariant
            "."@ == seq!['.'],
            ".."@ == seq!['.', '.'],
            "/"@ == seq!['/'],
            text::texts(kept@) == resolved(text::texts(parts@).take(i as int)),
    {
        let ghost before = kept@;
        proof {
            assert(text::texts(parts@).take(i as int + 1).drop_last() == text::texts(parts@).take(
                i as int,
            ));
        }
        let part = parts[i].as_str();
        if text_eq(part, ".") {
        } else if text_eq(part, "..") {
            if kept.len() > 0 && !text_eq(kept[kept.len() - 1].as_str(), "/") {
                let _ = kept.pop();
                assert(text::texts(kept@) == text::texts(before).drop_last());
            }
        } else {
            kept.push(parts[i].clone());
            assert(text::texts(kept@) == text::texts(before).push(part@));
        }
    }
    assert(text::texts(parts@).take(parts@.len() as int) == text::texts(parts@));
    render_path(&kept)
}

/// Takes a path relative to a root and normalizes it.
pub fn absolutize(root: &str, path: &str) -> (result: String)
    ensures
        result@ == absolute(root@, path@),
{
    if is_absolute(path) {
        normalize_path(path)
    } else {
        normalize_path(join_path(root, path).as_str())
    }
}

/// Whether a path begins at the root.
pub fn is_absolute(path: &str) -> (yes: bool)
    ensures
        yes == is_rooted(path@),
{
    let c = chars_of(path);
    c.len() > 0 && c[0] == '/'
}

/// Whether a list of strings begins with another.
pub fn list_starts_with(list: &Vec<String>, prefix: &Vec<String>) -> (yes: bool)
    ensures
        yes == text::texts(prefix@).is_prefix_of(text::texts(list@)),
{
    if prefix.len() > list.len() {
        return false;
    }
    let ghost p = text::texts(prefix@);
    let ghost l = text::texts(list@);
    for i in 0..prefix.len()
        invariant
            prefix.len() <= list.len(),
            p == text::texts(prefix@),
            l == text::texts(list@),
            forall|k: int| 0 <= k < i ==> p[k] == l[k],
    {
        if !text_eq(prefix[i].as_str(), list[i].as_str()) {
            assert(p[i as int] != l.subrange(0, p.len() as int)[i as int]);
            return false;
        }
    }
    assert(p == l.subrange(0, p.len() as int));
    true
}

/// Whether a path lies at or below a base path.
pub fn path_is_under(path: &str, base: &str) -> (yes: bool)
    ensures
        yes == is_under(path@, base@),
{
    let parts = path_components(path);
    let base_parts = path_components(base);
    list_starts_with(&parts, &base_parts)
}

/// Whether the components of `tail` end those of `path`.
pub open spec fn ends_with(path: Seq<char>, tail: Seq<char>) -> bool {
    components(tail).is_suffix_of(components(path))
}

/// Whether a path ends with the components of another.
pub fn path_ends_with(path: &str, tail: &str) -> (yes: bool)
    ensures
        yes == ends_with(path@, tail@),
{
    let parts = path_components(path);
    let tail_parts = path_components(tail);
    if tail_parts.len() > parts.len() {
        return false;
    }
    let skip = parts.len() - tail_parts.len();
    let ghost t = text::texts(tail_parts@);
    let ghost l = text::texts(parts@);
    for i in 0..tail_parts.len()
        invariant
            tail_parts.len() <= parts.len(),
            skip == parts.len() - tail_parts.len(),
            t == text::texts(tail_parts@),
            l == text::texts(parts@),
            t == components(tail@),
            l == components(path@),
            forall|k: int| 0 <= k < i ==> t[k] == l[skip + k],
    {
        if !text_eq(tail_parts[i].as_str(), parts[skip + i].as_str()) {
            assert(t[i as int] != l.subrange(skip as int, l.len() as int)[i as int]);
            return false;
        }
    }
    assert(t == l.subrange(skip as int, l.len() as int));
    true
}

// ---------------------------------------------------------------------------
// Relative paths
// ---------------------------------------------------------------------------

/// Where the first segment of a path ends.
pub open spec fn segment_end(path: Seq<char>) -> int
    decreases path.len(),
{
    if path.len() == 0 || path[0] == '/' {
        0
    } else {
        1 + segment_end(path.skip(1))
    }
}

/// A path behind its first segment and the separator that follows it.
pub open spec fn behind_segment(path: Seq<char>) -> Seq<char> {
    let e = segment_end(path);
    if e < path.len() {
        path.skip(e + 1)
    } else {
        Seq::empty()
    }
}

/// The first segment ends at the first separator, or at the end.
pub proof fn lemma_segment_end(path: Seq<char>)
    ensures
        0 <= segment_end(path) <= path.len(),
        segment_end(path) < path.len() ==> path[segment_end(path)] == '/',
        forall|k: int| 0 <= k < segment_end(path) ==> path[k] != '/',
    decreases path.len(),
{
    if path.len() > 0 && path[0] != '/' {
        let rest = path.skip(1);
        lemma_segment_end(rest);
        assert forall|k: int| 0 <= k < segment_end(path) implies path[k] != '/' by {
            if k > 0 {
                assert(rest[k - 1] == path[k]);
            }
        }
        if segment_end(path) < path.len() {
            assert(rest[segment_end(rest)] == path[segment_end(path)]);
        }
    }
}

proof fn lemma_is_segment_end(path: Seq<char>, e: int)
    requires
        0 <= e <= path.len(),
        e < path.len() ==> path[e] == '/',
        forall|k: int| 0 <= k < e ==> path[k] != '/',
    ensures
        segment_end(path) == e,
{
    lemma_segment_end(path);
    let f = segment_end(path);
    if f < e {
        assert(path[f] != '/');
    }
    if e < f {
        assert(path[e] != '/');
    }
}

/// A path without unnamed segments at its beginning.
pub open spec fn trim_front(path: Seq<char>) -> Seq<char>
    decreases path.len(),
{
    if path.len() == 0 || is_named(path.take(segment_end(path))) {
        path
    } else {
        proof {
            lemma_segment_end(path);
        }
        trim_front(behind_segment(path))
    }
}

/// A path behind so many named segments.
pub open spec fn behind_named(path: Seq<char>, n: nat) -> Seq<char>
    decreases n,
{
    if n == 0 {
        path
    } else {
        behind_named(behind_segment(trim_front(path)), (n - 1) as nat)
    }
}

/// Where the last segment of a path begins.
pub open spec fn last_segment(path: Seq<char>) -> int
    decreases path.len(),
{
    if path.len() == 0 || path.last() == '/' {
        path.len() as int
    } else {
        last_segment(path.drop_last())
    }
}

/// A path without unnamed segments at its end.
pub open spec fn trim_back(path: Seq<char>) -> Seq<char>
    decreases path.len(),
{
    let b = last_segment(path);
    if path.len() == 0 || is_named(path.skip(b)) {
        path
    } else if b > 0 {
        proof {
            lemma_last_segment(path);
        }
        trim_back(path.take(b - 1))
    } else {
        Seq::empty()
    }
}

/// The last segment begins within the path.
pub proof fn lemma_last_segment(path: Seq<char>)
    ensures
        0 <= last_segment(path) <= path.len(),
    decreases path.len(),
{
    if path.len() > 0 && path.last() != '/' {
        lemma_last_segment(path.drop_last());
    }
}

/// `path` relative to `base`, where it lies at or below it.
pub open spec fn relative_to(path: Seq<char>, base: Seq<char>) -> Option<Seq<char>> {
    let n = components(base).len();
    let led = lead(path).len();
    if !is_under(path, base) {
        None
    } else if n == 0 {
        Some(path.take(led as int) + trim_back(path.skip(led as int)))
    } else {
        Some(trim_back(trim_front(behind_named(path.skip(led as int), (n - led) as nat))))
    }
}

fn front_end(chars: &Vec<char>, from: usize) -> (end: usize)
    requires
        from <= chars.len(),
    ensures
        from <= end <= chars.len(),
        end - from == segment_end(chars@.skip(from as int)),
{
    let mut end = from;
    while end < chars.len() && chars[end] != '/'
        invariant
            from <= end <= chars.len(),
            forall|k: int| from <= k < end ==> chars@[k] != '/',
        decreases chars.len() - end,
    {
        end = end + 1;
    }
    proof {
        lemma_is_segment_end(chars@.skip(from as int), end - from);
    }
    end
}

fn named_range(chars: &Vec<char>, from: usize, end: usize) -> (named: bool)
    requires
        from <= end <= chars.len(),
    ensures
        named == is_named(chars@.subrange(from as int, end as int)),
{
    let ghost seg = chars@.subrange(from as int, end as int);
    if from == end {
        return false;
    }
    if end - from == 1 && chars[from] == '.' {
        assert(seg =~= seq!['.']);
        return false;
    }
    proof {
        if seg == seq!['.'] {
            assert(seg[0] == '.');
        }
    }
    true
}

fn skip_unnamed(chars: &Vec<char>, from: usize) -> (at: usize)
    requires
        from <= chars.len(),
    ensures
        from <= at <= chars.len(),
        chars@.skip(at as int) == trim_front(chars@.skip(from as int)),
{
    let mut at = from;
    while at < chars.len()
        invariant_except_break
            from <= at <= chars.len(),
            trim_front(chars@.skip(from as int)) == trim_front(chars@.skip(at as int)),
        ensures
            from <= at <= chars.len(),
            chars@.skip(at as int) == trim_front(chars@.skip(from as int)),
        decreases chars.len() - at,
    {
        let end = front_end(chars, at);
        let ghost s = chars@.skip(at as int);
        assert(s.take(segment_end(s)) =~= chars@.subrange(at as int, end as int));
        if named_range(chars, at, end) {
            break;
        }
        if end < chars.len() {
            assert(behind_segment(s) =~= chars@.skip(end as int + 1));
            at = end + 1;
        } else {
            assert(behind_segment(s) =~= chars@.skip(end as int));
            at = end;
        }
    }
    at
}

fn skip_named(chars: &Vec<char>, from: usize, count: usize) -> (at: usize)
    requires
        from <= chars.len(),
    ensures
        from <= at <= chars.len(),
        chars@.skip(at as int) == behind_named(chars@.skip(from as int), count as nat),
{
    let mut at = from;
    let mut left = count;
    while left > 0
        invariant
            from <= at <= chars.len(),
            left <= count,
            behind_named(chars@.skip(from as int), count as nat) == behind_named(
                chars@.skip(at as int),
                left as nat,
            ),
        decreases left,
    {
        let start = skip_unnamed(chars, at);
        let end = front_end(chars, start);
        let ghost s = chars@.skip(start as int);
        if end < chars.len() {
            assert(behind_segment(s) =~= chars@.skip(end as int + 1));
            at = end + 1;
        } else {
            assert(behind_segment(s) =~= chars@.skip(end as int));
            at = end;
        }
        left = left - 1;
    }
    at
}

proof fn lemma_is_last_segment(path: Seq<char>, b: int)
    requires
        0 <= b <= path.len(),
        b > 0 ==> path[b - 1] == '/',
        forall|k: int| b <= k < path.len() ==> path[k] != '/',
    ensures
        last_segment(path) == b,
    decreases path.len(),
{
    if path.len() > 0 && b < path.len() {
        assert(path.last() != '/');
        lemma_is_last_segment(path.drop_last(), b);
    }
}

fn drop_unnamed(chars: &Vec<char>, from: usize) -> (to: usize)
    requires
        from <= chars.len(),
    ensures
        from <= to <= chars.len(),
        chars@.subrange(from as int, to as int) == trim_back(chars@.skip(from as int)),
{
    let mut to: usize = chars.len();
    assert(chars@.subrange(from as int, to as int) =~= chars@.skip(from as int));
    while to > from
        invariant_except_break
            from <= to <= chars.len(),
            trim_back(chars@.skip(from as int)) == trim_back(
                chars@.subrange(from as int, to as int),
            ),
        ensures
            from <= to <= chars.len(),
            chars@.subrange(from as int, to as int) == trim_back(chars@.skip(from as int)),
        decreases to,
    {
        let ghost s = chars@.subrange(from as int, to as int);
        let mut begin = to;
        while begin > from && chars[begin - 1] != '/'
            invariant
                from <= begin <= to <= chars.len(),
                forall|k: int| begin <= k < to ==> chars@[k] != '/',
            decreases begin,
        {
            begin = begin - 1;
        }
        proof {
            lemma_is_last_segment(s, begin - from);
            assert(s.skip(begin - from) =~= chars@.subrange(begin as int, to as int));
        }
        if named_range(chars, begin, to) {
            break;
        }
        if begin > from {
            assert(s.take(begin - from - 1) =~= chars@.subrange(from as int, begin - 1));
            to = begin - 1;
        } else {
            assert(chars@.subrange(from as int, from as int) =~= Seq::empty());
            to = from;
        }
    }
    to
}

/// `path` relative to `base`, where it lies at or below it.
pub fn strip_base(path: &str, base: &str) -> (result: Option<String>)
    ensures
        text::opt_text(result) == relative_to(path@, base@),
{
    let parts = path_components(path);
    let base_parts = path_components(base);
    if !list_starts_with(&parts, &base_parts) {
        return None;
    }
    let chars = chars_of(path);
    let led: usize = if chars.len() > 0 && chars[0] == '/' {
        1
    } else if chars.len() > 0 && chars[0] == '.' && (chars.len() == 1 || chars[1] == '/') {
        1
    } else {
        0
    };
    assert(led == lead(path@).len());
    let n = base_parts.len();
    assert(n == text::texts(base_parts@).len());
    if n == 0 {
        let to = drop_unnamed(&chars, led);
        let rest = string_of(vstd::slice::slice_subrange(chars.as_slice(), 0, to));
        assert(rest@ =~= path@.take(led as int) + trim_back(path@.skip(led as int)));
        return Some(rest);
    }
    let at = skip_named(&chars, led, n - led);
    let from = skip_unnamed(&chars, at);
    let to = drop_unnamed(&chars, from);
    Some(string_of(vstd::slice::slice_subrange(chars.as_slice(), from, to)))
}

} // verus!
