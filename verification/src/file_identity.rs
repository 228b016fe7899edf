//! What a traced process saw of a file, free of system-specific detail.

use crate::digest;
use crate::digest::hash_bytes;
use crate::merkle;
use crate::paths;
use crate::paths::{path_components, render_path};
use crate::text;
use crate::text::{chars_of, concat, starts_with, string_of, text_eq};
use vstd::prelude::*;
use vstd::string::*;
use vstd::utf8::*;

verus! {

/// The identity given to every file that only reflects the state of the system.
pub const SYSTEM_STATE_SENTINEL: &'static str = "SYSTEM_STATE:0000000000000000000000000000000000000000000000000000000000000000";

// ---------------------------------------------------------------------------
// Observations
// ---------------------------------------------------------------------------

/// What was found when a file was looked at.
#[derive(Debug, Clone, PartialEq, Eq)]
pub enum FileObservation {
    /// The hash of the file's content.
    Content(String),
    /// There was no file; the hash of its path.
    Missing(String),
    /// The file could not be read; the hash of its path.
    Unreadable(String),
    /// Not a regular file; the hash of its path.
    NonRegular(String),
}

/// An observation as mathematical data.
pub enum Observed {
    Content(Seq<char>),
    Missing(Seq<char>),
    Unreadable(Seq<char>),
    NonRegular(Seq<char>),
}

impl View for FileObservation {
    type V = Observed;

    open spec fn view(&self) -> Observed {
        match *self {
            FileObservation::Content(h) => Observed::Content(h@),
            FileObservation::Missing(h) => Observed::Missing(h@),
            FileObservation::Unreadable(h) => Observed::Unreadable(h@),
            FileObservation::NonRegular(h) => Observed::NonRegular(h@),
        }
    }
}

impl Observed {
    /// The text that stands for the file in canonical operations.
    pub open spec fn identity(self) -> Seq<char> {
        match self {
            Observed::Content(h) => h,
            Observed::Missing(h) => "missing:"@ + h,
            Observed::Unreadable(h) => "unreadable:"@ + h,
            Observed::NonRegular(h) => "non-regular:"@ + h,
        }
    }

    /// The hash of the content, where content was read.
    pub open spec fn content_hash(self) -> Option<Seq<char>> {
        match self {
            Observed::Content(h) => Some(h),
            _ => None,
        }
    }
}

/// The text of an optional reference to a string.
pub open spec fn opt_str_text(s: Option<&str>) -> Option<Seq<char>> {
    match s {
        Some(t) => Some(t@),
        None => None,
    }
}

impl FileObservation {
    /// The text that stands for the file in canonical operations.
    pub fn identity(&self) -> (id: String)
        ensures
            id@ == self@.identity(),
    {
        match self {
            FileObservation::Content(hash) => hash.clone(),
            FileObservation::Missing(hash) => concat("missing:", hash.as_str()),
            FileObservation::Unreadable(hash) => concat("unreadable:", hash.as_str()),
            FileObservation::NonRegular(hash) => concat("non-regular:", hash.as_str()),
        }
    }

    /// The hash of the content, where content was read.
    pub fn content_hash(&self) -> (hash: Option<&str>)
        ensures
            opt_str_text(hash) == self@.content_hash(),
    {
        match self {
            FileObservation::Content(hash) => Some(hash.as_str()),
            _ => None,
        }
    }

    /// A copy of the observation.
    pub fn duplicate(&self) -> (copy: FileObservation)
        ensures
            copy@ == self@,
    {
        match self {
            FileObservation::Content(hash) => FileObservation::Content(hash.clone()),
            FileObservation::Missing(hash) => FileObservation::Missing(hash.clone()),
            FileObservation::Unreadable(hash) => FileObservation::Unreadable(hash.clone()),
            FileObservation::NonRegular(hash) => FileObservation::NonRegular(hash.clone()),
        }
    }
}

/// The outcome of opening a path as a regular file and reading it to its end.
pub enum FileProbe {
    /// The whole content was read.
    Content(Vec<u8>),
    /// Nothing is there.
    Missing,
    /// It could not be opened or read.
    Unreadable,
    /// It is not a regular file.
    NonRegular,
}

/// What a probe of `path` amounts to.
pub open spec fn observed(path: Seq<char>, probe: FileProbe) -> Observed {
    match probe {
        FileProbe::Content(data) => Observed::Content(digest::hash_text(data@)),
        FileProbe::Missing => Observed::Missing(path_hash(path)),
        FileProbe::Unreadable => Observed::Unreadable(path_hash(path)),
        FileProbe::NonRegular => Observed::NonRegular(path_hash(path)),
    }
}

/// Turns the outcome of probing `path` into an observation: content is known by
/// its hash, anything else by the hash of the normalized path.
pub fn observe_path(path: &str, probe: &FileProbe) -> (observation: FileObservation)
    ensures
        observation@ == observed(path@, *probe),
{
    match probe {
        FileProbe::Content(data) => FileObservation::Content(hash_bytes(data.as_slice())),
        FileProbe::Missing => FileObservation::Missing(hash_path(path)),
        FileProbe::Unreadable => FileObservation::Unreadable(hash_path(path)),
        FileProbe::NonRegular => FileObservation::NonRegular(hash_path(path)),
    }
}

/// The hash of what a probe read, where it read the content.
pub fn hash_file_contents(probe: &FileProbe) -> (hash: Option<String>)
    ensures
        text::opt_text(hash) == (match *probe {
            FileProbe::Content(data) => Some(digest::hash_text(data@)),
            _ => None::<Seq<char>>,
        }),
{
    match probe {
        FileProbe::Content(data) => Some(hash_bytes(data.as_slice())),
        _ => None,
    }
}

// ---------------------------------------------------------------------------
// Path classes
// ---------------------------------------------------------------------------

/// Whether `path` is `dir` or begins with `dir` and a separator.
pub open spec fn at_or_below(path: Seq<char>, dir: Seq<char>) -> bool {
    path == dir || dir.push('/').is_prefix_of(path)
}

/// Whether a path shows the state of the system and not of the build.
pub open spec fn shows_system_state(path: Seq<char>) -> bool {
    ||| at_or_below(path, "/proc"@)
    ||| at_or_below(path, "/sys"@)
    ||| path == "/etc/hostname"@
    ||| path == "/etc/os-release"@
    ||| path == "/etc/machine-id"@
    ||| path == "/dev/urandom"@
    ||| path == "/dev/random"@
    ||| path == "/dev/null"@
    ||| path == "/dev/zero"@
}

/// `s` without the separators at its end.
pub open spec fn without_trailing_slashes(s: Seq<char>) -> Seq<char>
    decreases s.len(),
{
    if s.len() > 0 && s.last() == '/' {
        without_trailing_slashes(s.drop_last())
    } else {
        s
    }
}

/// Whether `path` lies within `prefix`, which may end in separators; every
/// path lies within the empty prefix and within the root.
pub open spec fn within(path: Seq<char>, prefix: Seq<char>) -> bool {
    let dir = without_trailing_slashes(prefix);
    dir.len() == 0 || at_or_below(path, dir)
}

fn is_at_or_below(path: &str, dir: &str) -> (yes: bool)
    ensures
        yes == at_or_below(path@, dir@),
{
    if text_eq(path, dir) {
        return true;
    }
    let mut boundary = dir.to_string();
    boundary.push('/');
    starts_with(path, boundary.as_str())
}

/// Whether a path shows the state of the system and not of the build.
pub fn is_system_state(path: &str) -> (yes: bool)
    ensures
        yes == shows_system_state(path@),
{
    is_at_or_below(path, "/proc") || is_at_or_below(path, "/sys") || text_eq(path, "/etc/hostname")
        || text_eq(path, "/etc/os-release") || text_eq(path, "/etc/machine-id") || text_eq(
        path,
        "/dev/urandom",
    ) || text_eq(path, "/dev/random") || text_eq(path, "/dev/null") || text_eq(path, "/dev/zero")
}

/// Whether a path lies within a prefix, respecting directory boundaries.
pub fn is_path_within(path: &str, prefix: &str) -> (yes: bool)
    ensures
        yes == within(path@, prefix@),
{
    let chars = chars_of(prefix);
    let mut end: usize = chars.len();
    proof {
        assert(chars@.take(end as int) == prefix@);
    }
    while end > 0 && chars[end - 1] == '/'
        invariant
            end <= chars.len(),
            chars@ == prefix@,
            without_trailing_slashes(prefix@) == without_trailing_slashes(chars@.take(end as int)),
        decreases end,
    {
        proof {
            assert(chars@.take(end as int).drop_last() == chars@.take(end as int - 1));
        }
        end = end - 1;
    }
    let dir = string_of(vstd::slice::slice_subrange(chars.as_slice(), 0, end));
    proof {
        assert(dir@ == chars@.take(end as int));
        assert(without_trailing_slashes(prefix@) == dir@);
    }
    end == 0 || is_at_or_below(path, dir.as_str())
}

// ---------------------------------------------------------------------------
// Normalized paths of files that could not be read
// ---------------------------------------------------------------------------

/// An ASCII letter or digit.
pub open spec fn is_alphanumeric(c: char) -> bool {
    ('0' <= c && c <= '9') || ('A' <= c && c <= 'Z') || ('a' <= c && c <= 'z')
}

/// Whether every character is an ASCII letter or digit.
pub open spec fn all_alphanumeric(s: Seq<char>) -> bool {
    forall|i: int| 0 <= i < s.len() ==> is_alphanumeric(#[trigger] s[i])
}

/// Whether every character is an ASCII digit.
pub open spec fn all_digits(s: Seq<char>) -> bool {
    forall|i: int| 0 <= i < s.len() ==> '0' <= #[trigger] s[i] && s[i] <= '9'
}

/// Whether a component is a generated temporary directory such as `tmp.a1B2c3`.
pub open spec fn is_session_temp(part: Seq<char>) -> bool {
    "tmp."@.is_prefix_of(part) && part.len() >= 10 && all_alphanumeric(part.skip(4))
}

/// The position of the first dot, or the length where there is none.
pub open spec fn first_dot(s: Seq<char>) -> int
    decreases s.len(),
{
    if s.len() == 0 || s[0] == '.' {
        0
    } else {
        1 + first_dot(s.skip(1))
    }
}

/// Whether the stem of a component is one that compilers generate.
pub open spec fn is_generated_stem(stem: Seq<char>) -> bool {
    (("cc"@.is_prefix_of(stem) && stem.len() >= 8) || ("rustc"@.is_prefix_of(stem) && stem.len()
        >= 10)) && all_alphanumeric(stem)
}

/// A component with a compiler-generated stem replaced; what follows the first
/// dot stays.
pub open spec fn normal_temp_part(part: Seq<char>) -> Seq<char> {
    let dot = first_dot(part);
    if is_generated_stem(part.take(dot)) {
        "<compiler-temp>"@ + part.skip(dot)
    } else {
        part
    }
}

/// A component below a directory for temporary files, made independent of the
/// session that generated it.
pub open spec fn session_free_part(part: Seq<char>) -> Seq<char> {
    if is_session_temp(part) {
        "<session>"@
    } else {
        normal_temp_part(part)
    }
}

/// The components with each made independent of the session.
pub open spec fn session_free_parts(parts: Seq<Seq<char>>) -> Seq<Seq<char>> {
    Seq::new(parts.len(), |i: int| session_free_part(parts[i]))
}

/// Whether a path lies below a directory for temporary files.
pub open spec fn is_under_temp(path: Seq<char>) -> bool {
    "/tmp/"@.is_prefix_of(path) || "/var/tmp/"@.is_prefix_of(path)
}

/// The path under which an unavailable file is known.
pub open spec fn session_free_path(path: Seq<char>) -> Seq<char> {
    if "/dev/pts/"@.is_prefix_of(path) && all_digits(path.skip(9)) {
        "/dev/pts/<session>"@
    } else if is_under_temp(path) {
        paths::rendered(session_free_parts(paths::components(path)))
    } else {
        paths::rendered(paths::components(path))
    }
}

/// The bytes that an unavailable path is hashed over.
pub open spec fn path_hash_input(path: Seq<char>) -> Seq<u8> {
    encode_utf8("repx-path-v1"@).push(0u8) + encode_utf8(session_free_path(path))
}

/// The hash by which an unavailable path is known.
pub open spec fn path_hash(path: Seq<char>) -> Seq<char> {
    digest::hash_text(path_hash_input(path))
}

fn are_alphanumeric(chars: &[char]) -> (yes: bool)
    ensures
        yes == all_alphanumeric(chars@),
{
    for i in 0..chars.len()
        invariant
            forall|k: int| 0 <= k < i ==> is_alphanumeric(#[trigger] chars@[k]),
    {
        let c = chars[i];
        if !(('0' <= c && c <= '9') || ('A' <= c && c <= 'Z') || ('a' <= c && c <= 'z')) {
            assert(!is_alphanumeric(chars@[i as int]));
            return false;
        }
    }
    true
}

/// Whether a component is a generated temporary directory.
pub fn is_session_temp_component(component: &str) -> (yes: bool)
    ensures
        yes == is_session_temp(component@),
{
    let chars = chars_of(component);
    if !starts_with(component, "tmp.") || chars.len() < 10 {
        return false;
    }
    let suffix = vstd::slice::slice_subrange(chars.as_slice(), 4, chars.len());
    assert(suffix@ == component@.skip(4));
    are_alphanumeric(suffix)
}

proof fn lemma_first_dot(s: Seq<char>, dot: int)
    requires
        0 <= dot <= s.len(),
        dot < s.len() ==> s[dot] == '.',
        forall|k: int| 0 <= k < dot ==> s[k] != '.',
    ensures
        first_dot(s) == dot,
    decreases s.len(),
{
    if dot > 0 {
        assert forall|k: int| 0 <= k < dot - 1 implies s.skip(1)[k] != '.' by {
            assert(s.skip(1)[k] == s[k + 1]);
        }
        lemma_first_dot(s.skip(1), dot - 1);
    }
}

/// Replaces a compiler-generated stem in a component.
pub fn normalize_compiler_temp_component(component: &str) -> (result: String)
    ensures
        result@ == normal_temp_part(component@),
{
    let chars = chars_of(component);
    let mut dot: usize = 0;
    while dot < chars.len() && chars[dot] != '.'
        invariant
            dot <= chars.len(),
            forall|k: int| 0 <= k < dot ==> chars@[k] != '.',
        decreases chars.len() - dot,
    {
        dot = dot + 1;
    }
    proof {
        lemma_first_dot(component@, dot as int);
    }
    let stem_chars = vstd::slice::slice_subrange(chars.as_slice(), 0, dot);
    let stem = string_of(stem_chars);
    assert(stem@ == component@.take(dot as int));
    let generated = (starts_with(stem.as_str(), "cc") && dot >= 8) || (starts_with(
        stem.as_str(),
        "rustc",
    ) && dot >= 10);
    if generated && are_alphanumeric(stem_chars) {
        let rest = string_of(vstd::slice::slice_subrange(chars.as_slice(), dot, chars.len()));
        assert(rest@ == component@.skip(dot as int));
        concat("<compiler-temp>", rest.as_str())
    } else {
        component.to_string()
    }
}

/// Normalizes the path of a file that could not be read.
pub fn normalize_unavailable_path(path: &str) -> (result: String)
    ensures
        result@ == session_free_path(path@),
{
    proof {
        reveal_strlit("/dev/pts/");
    }
    if starts_with(path, "/dev/pts/") {
        let chars = chars_of(path);
        let mut digits = true;
        let mut i: usize = 9;
        while i < chars.len() && digits
            invariant
                9 <= i <= chars.len(),
                chars@ == path@,
                digits ==> forall|k: int|
                    0 <= k < i - 9 ==> '0' <= #[trigger] path@.skip(9)[k] && path@.skip(9)[k]
                        <= '9',
                !digits ==> !all_digits(path@.skip(9)),
            decreases chars.len() - i,
        {
            assert(path@.skip(9)[i as int - 9] == chars@[i as int]);
            if !('0' <= chars[i] && chars[i] <= '9') {
                digits = false;
            }
            i = i + 1;
        }
        if digits {
            assert(all_digits(path@.skip(9)));
            return "/dev/pts/<session>".to_string();
        }
    }
    let parts = path_components(path);
    let under_temp = starts_with(path, "/tmp/") || starts_with(path, "/var/tmp/");
    if !under_temp {
        return render_path(&parts);
    }
    let mut free: Vec<String> = Vec::new();
    for i in 0..parts.len()
        invariant
            free.len() == i,
            forall|k: int|
                0 <= k < i ==> (#[trigger] free[k])@ == session_free_part(parts[k]@),
    {
        if is_session_temp_component(parts[i].as_str()) {
            free.push("<session>".to_string());
        } else {
            free.push(normalize_compiler_temp_component(parts[i].as_str()));
        }
    }
    assert(text::texts(free@) == session_free_parts(text::texts(parts@)));
    render_path(&free)
}

/// Hashes the normalized path of a file that could not be read.
pub fn hash_path(path: &str) -> (hash: String)
    ensures
        hash@ == path_hash(path@),
{
    let mut buf: Vec<u8> = Vec::new();
    buf.extend_from_slice("repx-path-v1".as_bytes());
    buf.push(0u8);
    let normal = normalize_unavailable_path(path);
    let ghost head = buf@;
    assert(head == encode_utf8("repx-path-v1"@).push(0u8));
    buf.extend_from_slice(normal.as_str().as_bytes());
    assert(buf@ == path_hash_input(path@));
    hash_bytes(buf.as_slice())
}

// ---------------------------------------------------------------------------
// Laws
// ---------------------------------------------------------------------------

/// Files that could not be read and whose normalized paths differ have
/// different path hashes, unless SHA-256 collides on the two.
pub proof fn law_unavailable_files_are_bound_to_their_paths(a: Seq<char>, b: Seq<char>)
    requires
        session_free_path(a) != session_free_path(b),
    ensures
        path_hash(a) != path_hash(b) || digest::collide(path_hash_input(a), path_hash_input(b)),
{
    let head = encode_utf8("repx-path-v1"@).push(0u8);
    let x = encode_utf8(session_free_path(a));
    let y = encode_utf8(session_free_path(b));
    if path_hash_input(a) == path_hash_input(b) {
        assert(x == path_hash_input(a).skip(head.len() as int));
        assert(y == path_hash_input(b).skip(head.len() as int));
        text::lemma_utf8_injective(session_free_path(a), session_free_path(b));
    }
    if path_hash(a) == path_hash(b) {
        digest::law_equal_hashes_mean_equal_inputs(path_hash_input(a), path_hash_input(b));
    }
}

/// A path that only shares its beginning with a prefix, without a separator
/// behind it, does not lie within the prefix.
pub proof fn law_prefixes_respect_directory_boundaries(prefix: Seq<char>, rest: Seq<char>)
    requires
        prefix.len() > 0,
        prefix.last() != '/',
        rest.len() > 0,
        rest[0] != '/',
    ensures
        !within(prefix + rest, prefix),
        within(prefix.push('/') + rest, prefix),
        within(prefix, prefix),
{
    let p = prefix + rest;
    assert(p[prefix.len() as int] == rest[0]);
    if prefix.push('/').is_prefix_of(p) {
        assert(prefix.push('/')[prefix.len() as int] == p.subrange(0, prefix.len() as int + 1)[prefix.len() as int]);
    }
    let q = prefix.push('/') + rest;
    assert(prefix.push('/') == q.subrange(0, prefix.len() as int + 1));
}

/// What is observed of content is known by a digest.
pub proof fn law_observed_content_is_known_by_a_digest(path: Seq<char>, probe: FileProbe)
    ensures
        match observed(path, probe).content_hash() {
            Some(h) => digest::digest_sized(h),
            None => !(probe is Content),
        },
{
    if let FileProbe::Content(data) = probe {
        merkle::lemma_digest_size(data@);
    }
}

proof fn lemma_without_trailing_slashes(s: Seq<char>)
    ensures
        without_trailing_slashes(s).len() <= s.len(),
        without_trailing_slashes(s).len() > 0 ==> without_trailing_slashes(s).last() != '/',
        forall|i: int|
            0 <= i < s.len() ==> #[trigger] s[i] == if i < without_trailing_slashes(s).len() {
                without_trailing_slashes(s)[i]
            } else {
                '/'
            },
    decreases s.len(),
{
    if s.len() > 0 && s.last() == '/' {
        let d = s.drop_last();
        lemma_without_trailing_slashes(d);
        assert forall|i: int| 0 <= i < s.len() implies #[trigger] s[i] == if i
            < without_trailing_slashes(s).len() {
            without_trailing_slashes(s)[i]
        } else {
            '/'
        } by {
            if i < d.len() {
                assert(d[i] == s[i]);
            }
        }
    }
}

/// What lying within a directory means, for one that is named without a
/// separator at its end: to be the directory, or to go on from it with a
/// separator.
pub proof fn law_within_is_at_or_below(path: Seq<char>, prefix: Seq<char>)
    requires
        prefix.len() > 0,
        prefix.last() != '/',
    ensures
        within(path, prefix) <==> path == prefix || (path.len() > prefix.len() && path.take(
            prefix.len() as int,
        ) == prefix && path[prefix.len() as int] == '/'),
{
    let n = prefix.len() as int;
    let boundary = prefix.push('/');
    if boundary.is_prefix_of(path) {
        let head = path.subrange(0, n + 1);
        assert(boundary == head);
        assert(path.take(n) =~= boundary.take(n)) by {
            assert(head.take(n) =~= path.take(n));
        }
        assert(boundary.take(n) =~= prefix);
        assert(path[n] == head[n]);
    }
    if path.len() > n && path.take(n) == prefix && path[n] == '/' {
        let head = path.subrange(0, n + 1);
        assert forall|i: int| 0 <= i < n implies head[i] == boundary[i] by {
            assert(path.take(n)[i] == prefix[i]);
        }
        assert(boundary =~= head);
    }
}

/// Separators at the end of a prefix do not matter, and everything lies within
/// the root and within the empty prefix.
pub proof fn law_trailing_separators_do_not_matter(path: Seq<char>, prefix: Seq<char>)
    ensures
        within(path, prefix.push('/')) == within(path, prefix),
        within(path, "/"@),
        within(path, Seq::empty()),
{
    assert(prefix.push('/').drop_last() =~= prefix);
    reveal_strlit("/");
    assert("/"@.drop_last().len() == 0);
    assert(without_trailing_slashes("/"@) == without_trailing_slashes("/"@.drop_last()));
}

/// Lying within is transitive: what lies within a directory that lies within
/// another lies within the other too.
pub proof fn law_within_is_transitive(a: Seq<char>, b: Seq<char>, c: Seq<char>)
    requires
        within(a, b),
        within(b, c),
    ensures
        within(a, c),
{
    let y = without_trailing_slashes(b);
    let z = without_trailing_slashes(c);
    lemma_without_trailing_slashes(b);
    lemma_without_trailing_slashes(c);
    if z.len() > 0 && b != z {
        let n = z.len() as int;
        let boundary = z.push('/');
        assert forall|i: int| 0 <= i <= n implies #[trigger] b[i] == boundary[i] by {
            assert(b.subrange(0, n + 1)[i] == b[i]);
        }
        assert(b[n - 1] == z.last());
        assert(n <= y.len());
        assert forall|i: int| 0 <= i < n implies #[trigger] y[i] == z[i] by {
            assert(b[i] == y[i]);
        }
        assert(y.take(n) =~= z);
        assert(y.len() > n ==> y[n] == b[n]);
        assert(y.len() == n ==> y =~= z);
        law_within_is_at_or_below(y, z);
        law_within_is_at_or_below(a, y);
        law_within_is_at_or_below(a, z);
        if a != y && y.len() > n {
            assert(a.take(n) =~= a.take(y.len() as int).take(n));
            assert(a[n] == a.take(y.len() as int)[n]);
        }
    }
}

/// Generated directory names do not matter: all of them stand for the session.
pub proof fn law_session_names_do_not_matter(a: Seq<char>, b: Seq<char>)
    requires
        is_session_temp(a),
        is_session_temp(b),
    ensures
        session_free_part(a) == session_free_part(b),
{
}

/// The names that compilers generate do not matter: of a file with such a name
/// only what follows the stem counts.
pub proof fn law_compiler_names_do_not_matter(a: Seq<char>, b: Seq<char>, rest: Seq<char>)
    requires
        is_generated_stem(a),
        is_generated_stem(b),
        rest.len() == 0 || rest[0] == '.',
    ensures
        session_free_part(a + rest) == session_free_part(b + rest),
        session_free_part(a + rest) == "<compiler-temp>"@ + rest,
{
    lemma_generated_part(a, rest);
    lemma_generated_part(b, rest);
}

/// Generated names do not matter to where an unavailable file is known to lie:
/// two paths below directories for temporary files whose components agree, but
/// for the names that a session or a compiler generated, have the same hash, and
/// what is observed of a file without content is the same at both.
pub proof fn law_generated_names_do_not_matter(a: Seq<char>, b: Seq<char>, probe: FileProbe)
    requires
        is_under_temp(a),
        is_under_temp(b),
        session_free_parts(paths::components(a)) == session_free_parts(paths::components(b)),
    ensures
        session_free_path(a) == session_free_path(b),
        path_hash(a) == path_hash(b),
        observed(a, probe) == observed(b, probe),
{
    lemma_temp_is_no_terminal(a);
    lemma_temp_is_no_terminal(b);
}

/// The numbers of terminals do not matter.
pub proof fn law_terminal_numbers_do_not_matter(a: Seq<char>, b: Seq<char>, probe: FileProbe)
    requires
        all_digits(a),
        all_digits(b),
    ensures
        session_free_path("/dev/pts/"@ + a) == session_free_path("/dev/pts/"@ + b),
        path_hash("/dev/pts/"@ + a) == path_hash("/dev/pts/"@ + b),
        observed("/dev/pts/"@ + a, probe) == observed("/dev/pts/"@ + b, probe),
{
    reveal_strlit("/dev/pts/");
    let p = "/dev/pts/"@;
    assert((p + a).skip(9) =~= a);
    assert((p + b).skip(9) =~= b);
    assert(p =~= (p + a).subrange(0, 9));
    assert(p =~= (p + b).subrange(0, 9));
}

proof fn lemma_temp_is_no_terminal(path: Seq<char>)
    requires
        is_under_temp(path),
    ensures
        !"/dev/pts/"@.is_prefix_of(path),
{
    reveal_strlit("/dev/pts/");
    reveal_strlit("/tmp/");
    reveal_strlit("/var/tmp/");
    if "/dev/pts/"@.is_prefix_of(path) {
        assert(path.subrange(0, 9)[1] == path[1]);
        if "/tmp/"@.is_prefix_of(path) {
            assert(path.subrange(0, 5)[1] == path[1]);
        }
    }
}

proof fn lemma_generated_part(stem: Seq<char>, rest: Seq<char>)
    requires
        is_generated_stem(stem),
        rest.len() == 0 || rest[0] == '.',
    ensures
        session_free_part(stem + rest) == "<compiler-temp>"@ + rest,
{
    let part = stem + rest;
    assert forall|k: int| 0 <= k < stem.len() implies part[k] != '.' by {
        assert(is_alphanumeric(stem[k]));
        assert(part[k] == stem[k]);
    }
    lemma_first_dot(part, stem.len() as int);
    assert(part.take(stem.len() as int) =~= stem);
    assert(part.skip(stem.len() as int) =~= rest);
    if is_session_temp(part) {
        reveal_strlit("tmp.");
        assert("tmp."@ == part.subrange(0, 4));
        assert(part[3] == "tmp."@[3]);
        assert(part[3] == '.');
    }
}

/// What stands for a file tells the four things that can be seen of it apart:
/// content stands for itself, anything else is marked with what was wrong.
pub proof fn law_identities_say_what_was_seen(h: Seq<char>)
    ensures
        Observed::Content(h).identity() == h,
        Observed::Missing(h).identity() == "missing:"@ + h,
        Observed::Unreadable(h).identity() == "unreadable:"@ + h,
        Observed::NonRegular(h).identity() == "non-regular:"@ + h,
        Observed::Content(h).content_hash() == Some(h),
        Observed::Missing(h).content_hash() is None,
        Observed::Unreadable(h).content_hash() is None,
        Observed::NonRegular(h).content_hash() is None,
{
}

/// What is seen of a file goes by the probe: content by its digest, anything else
/// by the hash of the path, marked with what was wrong.
pub proof fn law_observations_go_by_the_probe(path: Seq<char>, data: Vec<u8>)
    ensures
        observed(path, FileProbe::Content(data)) == Observed::Content(digest::hash_text(data@)),
        observed(path, FileProbe::Missing) == Observed::Missing(path_hash(path)),
        observed(path, FileProbe::Unreadable) == Observed::Unreadable(path_hash(path)),
        observed(path, FileProbe::NonRegular) == Observed::NonRegular(path_hash(path)),
{
}

/// Whether a path is a directory or lies in it.
pub open spec fn is_or_lies_in(path: Seq<char>, dir: Seq<char>) -> bool {
    path == dir || exists|rest: Seq<char>| path == #[trigger] (dir + seq!['/'] + rest)
}

proof fn lemma_at_or_below(path: Seq<char>, dir: Seq<char>)
    ensures
        at_or_below(path, dir) == is_or_lies_in(path, dir),
{
    let boundary = dir.push('/');
    let n = boundary.len() as int;
    if boundary.is_prefix_of(path) {
        let rest = path.skip(n);
        assert(boundary == path.subrange(0, n));
        assert(path =~= dir + seq!['/'] + rest) by {
            assert(path =~= path.subrange(0, n) + rest);
            assert(boundary =~= dir + seq!['/']);
        }
    }
    if exists|rest: Seq<char>| path == #[trigger] (dir + seq!['/'] + rest) {
        let rest = choose|rest: Seq<char>| path == #[trigger] (dir + seq!['/'] + rest);
        assert(path.subrange(0, n) =~= boundary);
    }
}

/// The state of the system is what lies in `/proc` and `/sys`, three files of
/// `/etc`, and four devices.
pub proof fn law_the_state_of_the_system(path: Seq<char>)
    ensures
        shows_system_state(path) <==> is_or_lies_in(path, "/proc"@) || is_or_lies_in(path, "/sys"@)
            || path == "/etc/hostname"@ || path == "/etc/os-release"@ || path == "/etc/machine-id"@
            || path == "/dev/urandom"@ || path == "/dev/random"@ || path == "/dev/null"@ || path
            == "/dev/zero"@,
{
    lemma_at_or_below(path, "/proc"@);
    lemma_at_or_below(path, "/sys"@);
}

/// Whether every character is an ASCII letter or digit.
pub open spec fn is_generated(s: Seq<char>) -> bool {
    forall|i: int|
        0 <= i < s.len() ==> ('0' <= #[trigger] s[i] && s[i] <= '9') || ('A' <= s[i] && s[i] <= 'Z')
            || ('a' <= s[i] && s[i] <= 'z')
}

/// Which names of temporary directories are taken for generated: `tmp.` with six or
/// more letters and digits behind it. Any other name that begins so stays.
pub proof fn law_session_names(s: Seq<char>)
    ensures
        session_free_part("tmp."@ + s) == if s.len() >= 6 && is_generated(s) {
            "<session>"@
        } else {
            "tmp."@ + s
        },
{
    reveal_strlit("tmp.");
    reveal_strlit("cc");
    reveal_strlit("rustc");
    let part = "tmp."@ + s;
    assert(part.skip(4) =~= s);
    assert("tmp."@ =~= part.subrange(0, 4));
    assert forall|i: int| 0 <= i < s.len() implies is_alphanumeric(#[trigger] s[i]) == (('0' <= s[i]
        && s[i] <= '9') || ('A' <= s[i] && s[i] <= 'Z') || ('a' <= s[i] && s[i] <= 'z')) by {}
    assert(all_alphanumeric(s) == is_generated(s));
    assert(part[0] == 't' && part[1] == 'm' && part[2] == 'p' && part[3] == '.');
    lemma_first_dot(part, 3);
    let stem = part.take(3);
    assert(stem[0] == 't');
    if "cc"@.is_prefix_of(stem) {
        assert(stem.subrange(0, 2)[0] == 'c');
    }
}

/// Which names of files are taken for generated by a compiler: `cc` with six or
/// more letters and digits behind it, or `rustc` with five or more, and then
/// nothing, or a dot and anything. The part before the dot is replaced; a shorter
/// name stays.
pub proof fn law_compiler_names(s: Seq<char>, rest: Seq<char>)
    requires
        is_generated(s),
        rest.len() == 0 || rest[0] == '.',
    ensures
        s.len() >= 6 ==> session_free_part("cc"@ + s + rest) == "<compiler-temp>"@ + rest,
        s.len() < 6 ==> session_free_part("cc"@ + s + rest) == "cc"@ + s + rest,
        s.len() >= 5 ==> session_free_part("rustc"@ + s + rest) == "<compiler-temp>"@ + rest,
        s.len() < 5 ==> session_free_part("rustc"@ + s + rest) == "rustc"@ + s + rest,
{
    reveal_strlit("tmp.");
    reveal_strlit("cc");
    reveal_strlit("rustc");
    let a = "cc"@ + s;
    let b = "rustc"@ + s;
    assert forall|i: int| 0 <= i < a.len() implies is_alphanumeric(#[trigger] a[i]) by {
        if i >= 2 {
            assert(a[i] == s[i - 2]);
        }
    }
    assert forall|i: int| 0 <= i < b.len() implies is_alphanumeric(#[trigger] b[i]) by {
        if i >= 5 {
            assert(b[i] == s[i - 5]);
        }
    }
    assert("cc"@ =~= a.subrange(0, 2));
    assert("rustc"@ =~= b.subrange(0, 5));
    lemma_stem(a, rest);
    lemma_stem(b, rest);
    if s.len() >= 6 {
        lemma_generated_part(a, rest);
    } else {
        if "rustc"@.is_prefix_of(a) {
            assert(a.subrange(0, 5)[0] == 'r');
        }
        assert(!is_generated_stem(a));
        lemma_plain_part(a, rest);
    }
    if s.len() >= 5 {
        lemma_generated_part(b, rest);
    } else {
        if "cc"@.is_prefix_of(b) {
            assert(b.subrange(0, 2)[0] == 'c');
        }
        assert(!is_generated_stem(b));
        lemma_plain_part(b, rest);
    }
}

proof fn lemma_stem(stem: Seq<char>, rest: Seq<char>)
    requires
        all_alphanumeric(stem),
        rest.len() == 0 || rest[0] == '.',
    ensures
        first_dot(stem + rest) == stem.len(),
        (stem + rest).take(stem.len() as int) == stem,
{
    let part = stem + rest;
    assert forall|k: int| 0 <= k < stem.len() implies part[k] != '.' by {
        assert(is_alphanumeric(stem[k]));
        assert(part[k] == stem[k]);
    }
    lemma_first_dot(part, stem.len() as int);
    assert(part.take(stem.len() as int) =~= stem);
}

proof fn lemma_plain_part(stem: Seq<char>, rest: Seq<char>)
    requires
        all_alphanumeric(stem),
        stem.len() > 0,
        stem[0] != 't',
        rest.len() == 0 || rest[0] == '.',
        !is_generated_stem(stem),
    ensures
        session_free_part(stem + rest) == stem + rest,
{
    let part = stem + rest;
    lemma_stem(stem, rest);
    if is_session_temp(part) {
        reveal_strlit("tmp.");
        assert("tmp."@ == part.subrange(0, 4));
        assert(part.subrange(0, 4)[0] == part[0]);
    }
}

/// A name that begins otherwise stays as it is.
pub proof fn law_other_names_stay(part: Seq<char>)
    requires
        !"tmp."@.is_prefix_of(part),
        !"cc"@.is_prefix_of(part),
        !"rustc"@.is_prefix_of(part),
    ensures
        session_free_part(part) == part,
{
    reveal_strlit("cc");
    reveal_strlit("rustc");
    lemma_first_dot_bound(part);
    let stem = part.take(first_dot(part));
    if "cc"@.is_prefix_of(stem) {
        assert(stem.subrange(0, 2) =~= part.subrange(0, 2));
    }
    if "rustc"@.is_prefix_of(stem) {
        assert(stem.subrange(0, 5) =~= part.subrange(0, 5));
    }
}

proof fn lemma_first_dot_bound(s: Seq<char>)
    ensures
        0 <= first_dot(s) <= s.len(),
    decreases s.len(),
{
    if s.len() > 0 && s[0] != '.' {
        lemma_first_dot_bound(s.skip(1));
    }
}

/// Only below directories for temporary files are names taken for generated:
/// anywhere else, and but for terminals, a path is known as it is written, in its
/// plain form.
pub proof fn law_names_elsewhere_matter(path: Seq<char>)
    requires
        !"/tmp/"@.is_prefix_of(path),
        !"/var/tmp/"@.is_prefix_of(path),
        !"/dev/pts/"@.is_prefix_of(path),
    ensures
        session_free_path(path) == paths::rendered(paths::components(path)),
{
}

/// The hash of a path is that of its plain form behind a mark of its own, so that
/// no path is taken for content.
pub proof fn law_paths_are_hashed_behind_a_mark(path: Seq<char>)
    ensures
        path_hash(path) == digest::hash_text(
            encode_utf8("repx-path-v1"@) + seq![0u8] + encode_utf8(session_free_path(path)),
        ),
{
    assert(path_hash_input(path) =~= encode_utf8("repx-path-v1"@) + seq![0u8] + encode_utf8(
        session_free_path(path),
    ));
}

} // verus!
