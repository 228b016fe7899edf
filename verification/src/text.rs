//! Text primitives: characters, UTF-8 bytes, ordering and number formatting.
//!
//! A string is modelled by its sequence of characters; its bytes are the
//! UTF-8 encoding of that sequence. Strings are ordered by their bytes.

use vstd::prelude::*;
use vstd::string::*;
use vstd::utf8::*;

verus! {

/// `String::push` appends one character.
pub assume_specification[ String::push ](s: &mut String, c: char)
    ensures
        final(s)@ == old(s)@.push(c),
;

/// The characters of every string of a list.
pub open spec fn texts(v: Seq<String>) -> Seq<Seq<char>> {
    Seq::new(v.len(), |i: int| v[i]@)
}

/// The characters of an optional string.
pub open spec fn opt_text(s: Option<String>) -> Option<Seq<char>> {
    match s {
        Some(s) => Some(s@),
        None => None,
    }
}

/// Copies the characters of a string into a vector.
pub fn chars_of(s: &str) -> (chars: Vec<char>)
    ensures
        chars@ == s@,
{
    let mut chars: Vec<char> = Vec::new();
    for c in it: s.chars()
        invariant
            chars@ == s@.take(it.index() as int),
            it.seq() == s@,
    {
        assert(s@.take(it.index() as int + 1) == s@.take(it.index() as int).push(c));
        chars.push(c);
    }
    assert(s@.take(s@.len() as int) == s@);
    chars
}

pub fn string_of(chars: &[char]) -> (s: String)
    ensures
        s@ == chars@,
{
    let mut s = String::new();
    for i in 0..chars.len()
        invariant
            s@ == chars@.take(i as int),
    {
        assert(chars@.take(i as int + 1) == chars@.take(i as int).push(chars@[i as int]));
        s.push(chars[i]);
    }
    assert(chars@.take(chars@.len() as int) == chars@);
    s
}

/// Whether two strings hold the same characters.
pub fn text_eq(a: &str, b: &str) -> (same: bool)
    ensures
        same == (a@ == b@),
{
    match rank_text(a, b) {
        Rank::Same => true,
        _ => false,
    }
}

/// The list of one string.
pub fn one(s: String) -> (v: Vec<String>)
    ensures
        texts(v@) == seq![s@],
{
    let mut v: Vec<String> = Vec::new();
    v.push(s);
    assert(texts(v@) =~= seq![s@]);
    v
}

/// An empty list has no texts.
pub proof fn lemma_no_texts()
    ensures
        texts(Seq::<String>::empty()) == Seq::<Seq<char>>::empty(),
{
    assert(texts(Seq::<String>::empty()) =~= Seq::<Seq<char>>::empty());
}

/// Whether `s` begins with `prefix`.
pub fn starts_with(s: &str, prefix: &str) -> (yes: bool)
    ensures
        yes == prefix@.is_prefix_of(s@),
{
    let a = chars_of(s);
    let p = chars_of(prefix);
    if p.len() > a.len() {
        return false;
    }
    for i in 0..p.len()
        invariant
            a@ == s@,
            p@ == prefix@,
            p.len() <= a.len(),
            forall|k: int| 0 <= k < i ==> p[k] == a[k],
    {
        if p[i] != a[i] {
            assert(prefix@[i as int] != s@.subrange(0, prefix@.len() as int)[i as int]);
            return false;
        }
    }
    assert(prefix@ == s@.subrange(0, prefix@.len() as int));
    true
}

/// `a` followed by `b`.
pub fn concat(a: &str, b: &str) -> (s: String)
    ensures
        s@ == a@ + b@,
{
    let mut s = a.to_string();
    s.append(b);
    s
}

// ---------------------------------------------------------------------------
// Ordering
// ---------------------------------------------------------------------------

/// Lexicographic order of byte sequences; a proper prefix comes first.
pub open spec fn bytes_lt(a: Seq<u8>, b: Seq<u8>) -> bool
    decreases a.len(),
{
    if b.len() == 0 {
        false
    } else if a.len() == 0 {
        true
    } else if a[0] != b[0] {
        a[0] < b[0]
    } else {
        bytes_lt(a.skip(1), b.skip(1))
    }
}

/// The order of strings: that of their UTF-8 bytes.
pub open spec fn text_lt(a: Seq<char>, b: Seq<char>) -> bool {
    bytes_lt(encode_utf8(a), encode_utf8(b))
}

/// The outcome of comparing two strings.
pub enum Rank {
    Before,
    Same,
    After,
}

proof fn lemma_bytes_lt_irreflexive(a: Seq<u8>)
    ensures
        !bytes_lt(a, a),
    decreases a.len(),
{
    if a.len() > 0 {
        lemma_bytes_lt_irreflexive(a.skip(1));
    }
}

proof fn lemma_bytes_lt_transitive(a: Seq<u8>, b: Seq<u8>, c: Seq<u8>)
    requires
        bytes_lt(a, b),
        bytes_lt(b, c),
    ensures
        bytes_lt(a, c),
    decreases a.len(),
{
    if a.len() > 0 && a[0] == b[0] && b[0] == c[0] {
        lemma_bytes_lt_transitive(a.skip(1), b.skip(1), c.skip(1));
    }
}

proof fn lemma_bytes_lt_total(a: Seq<u8>, b: Seq<u8>)
    ensures
        bytes_lt(a, b) || bytes_lt(b, a) || a == b,
    decreases a.len(),
{
    if a.len() > 0 && b.len() > 0 {
        if a[0] == b[0] {
            lemma_bytes_lt_total(a.skip(1), b.skip(1));
            if a.skip(1) == b.skip(1) {
                assert(a == seq![a[0]] + a.skip(1));
                assert(b == seq![b[0]] + b.skip(1));
            }
        }
    } else {
        assert(a.len() == 0 && b.len() == 0 ==> a == b);
    }
}

/// Distinct character sequences have distinct UTF-8 encodings.
pub proof fn lemma_utf8_injective(a: Seq<char>, b: Seq<char>)
    requires
        encode_utf8(a) == encode_utf8(b),
    ensures
        a == b,
{
    encode_utf8_decode_utf8(a);
    encode_utf8_decode_utf8(b);
}

/// String order is irreflexive.
pub proof fn lemma_text_lt_irreflexive(a: Seq<char>)
    ensures
        !text_lt(a, a),
{
    lemma_bytes_lt_irreflexive(encode_utf8(a));
}

/// String order is transitive.
pub proof fn lemma_text_lt_transitive(a: Seq<char>, b: Seq<char>, c: Seq<char>)
    requires
        text_lt(a, b),
        text_lt(b, c),
    ensures
        text_lt(a, c),
{
    lemma_bytes_lt_transitive(encode_utf8(a), encode_utf8(b), encode_utf8(c));
}

/// Any two distinct strings are ordered, one way only.
pub proof fn lemma_text_lt_total(a: Seq<char>, b: Seq<char>)
    ensures
        text_lt(a, b) || text_lt(b, a) || a == b,
        !(text_lt(a, b) && text_lt(b, a)),
{
    lemma_bytes_lt_total(encode_utf8(a), encode_utf8(b));
    if encode_utf8(a) == encode_utf8(b) {
        lemma_utf8_injective(a, b);
    }
    if text_lt(a, b) && text_lt(b, a) {
        lemma_text_lt_transitive(a, b, a);
        lemma_text_lt_irreflexive(a);
    }
}

/// Compares two strings by their bytes.
pub fn rank_text(a: &str, b: &str) -> (rank: Rank)
    ensures
        match rank {
            Rank::Before => text_lt(a@, b@) && a@ != b@,
            Rank::Same => a@ == b@,
            Rank::After => text_lt(b@, a@) && a@ != b@,
        },
{
    let x = a.as_bytes();
    let y = b.as_bytes();
    let mut i: usize = 0;
    proof {
        assert(x@.skip(0) == x@);
        assert(y@.skip(0) == y@);
        lemma_text_lt_irreflexive(a@);
    }
    while i < x.len() && i < y.len() && x[i] == y[i]
        invariant
            i <= x@.len(),
            i <= y@.len(),
            x@.take(i as int) == y@.take(i as int),
            bytes_lt(x@, y@) == bytes_lt(x@.skip(i as int), y@.skip(i as int)),
            bytes_lt(y@, x@) == bytes_lt(y@.skip(i as int), x@.skip(i as int)),
        decreases x@.len() - i,
    {
        proof {
            assert(x@.skip(i as int).skip(1) == x@.skip(i as int + 1));
            assert(y@.skip(i as int).skip(1) == y@.skip(i as int + 1));
            assert(x@.take(i as int + 1) == x@.take(i as int).push(x@[i as int]));
            assert(y@.take(i as int + 1) == y@.take(i as int).push(y@[i as int]));
        }
        i = i + 1;
    }
    if i < x.len() {
        if i < y.len() && x[i] < y[i] {
            Rank::Before
        } else {
            Rank::After
        }
    } else if i < y.len() {
        Rank::Before
    } else {
        proof {
            assert(x@.take(i as int) == x@);
            assert(y@.take(i as int) == y@);
            lemma_utf8_injective(a@, b@);
        }
        Rank::Same
    }
}

// ---------------------------------------------------------------------------
// Numbers
// ---------------------------------------------------------------------------

/// The character of a decimal digit.
pub open spec fn digit(d: nat) -> char {
    (('0' as u32) + d) as char
}

/// The decimal digits of a number, most significant first.
pub open spec fn decimal(n: nat) -> Seq<char>
    decreases n,
{
    if n < 10 {
        seq![digit(n)]
    } else {
        decimal(n / 10).push(digit(n % 10))
    }
}

/// The decimal text of a signed number.
pub open spec fn signed_decimal(n: int) -> Seq<char> {
    if n < 0 {
        seq!['-'] + decimal((-n) as nat)
    } else {
        decimal(n as nat)
    }
}

fn digit_char(d: u64) -> (c: char)
    requires
        d < 10,
    ensures
        c == digit(d as nat),
{
    (48u8 + d as u8) as char
}

/// Formats a number in decimal.
pub fn format_decimal(n: u64) -> (s: String)
    ensures
        s@ == decimal(n as nat),
    decreases n,
{
    if n < 10 {
        let mut s = String::new();
        s.push(digit_char(n));
        s
    } else {
        let mut s = format_decimal(n / 10);
        s.push(digit_char(n % 10));
        s
    }
}

/// Formats a wide number in decimal.
pub fn format_wide(n: u128) -> (s: String)
    ensures
        s@ == decimal(n as nat),
    decreases n,
{
    if n < 10 {
        let mut s = String::new();
        s.push(digit_char(n as u64));
        s
    } else {
        let mut s = format_wide(n / 10);
        s.push(digit_char((n % 10) as u64));
        s
    }
}

/// Formats a signed number in decimal.
pub fn format_signed(n: i32) -> (s: String)
    ensures
        s@ == signed_decimal(n as int),
{
    if n < 0 {
        let mut s = String::new();
        s.push('-');
        let magnitude: u64 = (-(n as i64)) as u64;
        s.append(format_decimal(magnitude).as_str());
        s
    } else {
        format_decimal(n as u64)
    }
}

/// The lowercase character of a hexadecimal digit.
pub open spec fn hex_digit(d: int) -> char {
    if d < 10 {
        (('0' as u32) + d) as char
    } else {
        (('a' as u32) + (d - 10)) as char
    }
}

/// Two lowercase hexadecimal digits for each byte.
pub open spec fn hex_text(bytes: Seq<u8>) -> Seq<char>
    decreases bytes.len(),
{
    if bytes.len() == 0 {
        Seq::empty()
    } else {
        hex_text(bytes.drop_last()).push(hex_digit(bytes.last() as int / 16)).push(
            hex_digit(bytes.last() as int % 16),
        )
    }
}

fn hex_char(d: u8) -> (c: char)
    requires
        d < 16,
    ensures
        c == hex_digit(d as int),
{
    if d < 10 {
        (48u8 + d) as char
    } else {
        (97u8 + (d - 10)) as char
    }
}

/// Formats bytes as lowercase hexadecimal.
pub fn format_hex(bytes: &[u8]) -> (s: String)
    ensures
        s@ == hex_text(bytes@),
{
    let mut s = String::new();
    for i in 0..bytes.len()
        invariant
            s@ == hex_text(bytes@.take(i as int)),
    {
        assert(bytes@.take(i as int + 1).drop_last() == bytes@.take(i as int));
        s.push(hex_char(bytes[i] / 16));
        s.push(hex_char(bytes[i] % 16));
    }
    assert(bytes@.take(bytes@.len() as int) == bytes@);
    s
}

/// Hexadecimal text has two characters for each byte.
pub proof fn lemma_hex_len(a: Seq<u8>)
    ensures
        hex_text(a).len() == 2 * a.len(),
    decreases a.len(),
{
    if a.len() > 0 {
        lemma_hex_len(a.drop_last());
    }
}

/// Distinct byte sequences have distinct hexadecimal texts.
pub proof fn lemma_hex_injective(a: Seq<u8>, b: Seq<u8>)
    requires
        hex_text(a) == hex_text(b),
    ensures
        a == b,
    decreases a.len(),
{
    lemma_hex_len(a);
    lemma_hex_len(b);
    if a.len() > 0 {
        let x = hex_text(a);
        let y = hex_text(b);
        assert(x.drop_last().drop_last() == hex_text(a.drop_last()));
        assert(y.drop_last().drop_last() == hex_text(b.drop_last()));
        lemma_hex_injective(a.drop_last(), b.drop_last());
        assert(x[x.len() - 1] == hex_digit(a.last() as int % 16));
        assert(x[x.len() - 2] == hex_digit(a.last() as int / 16));
        assert(y[y.len() - 1] == hex_digit(b.last() as int % 16));
        assert(y[y.len() - 2] == hex_digit(b.last() as int / 16));
        assert(a == a.drop_last().push(a.last()));
        assert(b == b.drop_last().push(b.last()));
    } else {
        assert(a == b);
    }
}

// ---------------------------------------------------------------------------
// Whitespace
// ---------------------------------------------------------------------------

/// Whether a character has the Unicode property White_Space.
pub open spec fn is_whitespace(c: char) -> bool {
    let n = c as u32;
    ||| 0x9 <= n <= 0xd
    ||| n == 0x20
    ||| n == 0x85
    ||| n == 0xa0
    ||| n == 0x1680
    ||| 0x2000 <= n <= 0x200a
    ||| n == 0x2028
    ||| n == 0x2029
    ||| n == 0x202f
    ||| n == 0x205f
    ||| n == 0x3000
}

/// `s` without the whitespace at its beginning.
pub open spec fn trim_start(s: Seq<char>) -> Seq<char>
    decreases s.len(),
{
    if s.len() > 0 && is_whitespace(s[0]) {
        trim_start(s.skip(1))
    } else {
        s
    }
}

/// `s` without the whitespace at its end.
pub open spec fn trim_end(s: Seq<char>) -> Seq<char>
    decreases s.len(),
{
    if s.len() > 0 && is_whitespace(s.last()) {
        trim_end(s.drop_last())
    } else {
        s
    }
}

/// `s` without the whitespace around it.
pub open spec fn trimmed(s: Seq<char>) -> Seq<char> {
    trim_end(trim_start(s))
}

fn is_space(c: char) -> (yes: bool)
    ensures
        yes == is_whitespace(c),
{
    let n = c as u32;
    (0x9 <= n && n <= 0xd) || n == 0x20 || n == 0x85 || n == 0xa0 || n == 0x1680 || (0x2000 <= n && n
        <= 0x200a) || n == 0x2028 || n == 0x2029 || n == 0x202f || n == 0x205f || n == 0x3000
}

/// Strips the whitespace around a string.
pub fn trim(s: &str) -> (result: String)
    ensures
        result@ == trimmed(s@),
{
    let chars = chars_of(s);
    let mut start: usize = 0;
    assert(chars@.skip(0) =~= chars@);
    while start < chars.len() && is_space(chars[start])
        invariant
            start <= chars@.len(),
            chars@ == s@,
            trim_start(s@) == trim_start(chars@.skip(start as int)),
        decreases chars@.len() - start,
    {
        assert(chars@.skip(start as int).skip(1) =~= chars@.skip(start as int + 1));
        start = start + 1;
    }
    let ghost head = chars@.skip(start as int);
    assert(trim_start(s@) == head);
    let mut end: usize = chars.len();
    assert(chars@.subrange(start as int, end as int) =~= head);
    while end > start && is_space(chars[end - 1])
        invariant
            start <= end <= chars@.len(),
            trim_end(head) == trim_end(chars@.subrange(start as int, end as int)),
        decreases end,
    {
        assert(chars@.subrange(start as int, end as int).drop_last() =~= chars@.subrange(
            start as int,
            end as int - 1,
        ));
        end = end - 1;
    }
    string_of(vstd::slice::slice_subrange(chars.as_slice(), start, end))
}

// ---------------------------------------------------------------------------
// Decimal numbers as bytes
// ---------------------------------------------------------------------------

/// Decimal text is made of ASCII digits.
pub proof fn lemma_decimal_digits(n: nat)
    ensures
        decimal(n).len() > 0,
        forall|i: int| 0 <= i < decimal(n).len() ==> '0' <= #[trigger] decimal(n)[i] && decimal(n)[i] <= '9',
        is_ascii_chars(decimal(n)),
    decreases n,
{
    if n >= 10 {
        lemma_decimal_digits(n / 10);
    }
}

proof fn lemma_digit_injective(a: nat, b: nat)
    requires
        a < 10,
        b < 10,
        digit(a) == digit(b),
    ensures
        a == b,
{
    assert(digit(a) as u32 == 48 + a);
    assert(digit(b) as u32 == 48 + b);
}

/// Distinct numbers have distinct decimal texts.
pub proof fn lemma_decimal_injective(a: nat, b: nat)
    requires
        decimal(a) == decimal(b),
    ensures
        a == b,
    decreases a,
{
    lemma_decimal_digits(a / 10);
    lemma_decimal_digits(b / 10);
    assert(decimal(a).last() == digit(a % 10));
    assert(decimal(b).last() == digit(b % 10));
    lemma_digit_injective(a % 10, b % 10);
    if a >= 10 && b >= 10 {
        assert(decimal(a).drop_last() =~= decimal(a / 10));
        assert(decimal(b).drop_last() =~= decimal(b / 10));
        lemma_decimal_injective(a / 10, b / 10);
        assert(a % 10 == b % 10);
    } else if a >= 10 {
        assert(decimal(a).len() > 1);
    } else if b >= 10 {
        assert(decimal(b).len() > 1);
    }
}

/// A decimal number that a space follows is found in one way only.
pub proof fn lemma_decimal_prefix_unique(a: nat, b: nat, x: Seq<u8>, y: Seq<u8>)
    requires
        encode_utf8(decimal(a)) + (seq![32u8] + x) == encode_utf8(decimal(b)) + (seq![32u8] + y),
    ensures
        a == b,
        x == y,
{
    lemma_decimal_digits(a);
    lemma_decimal_digits(b);
    is_ascii_chars_encode_utf8(decimal(a));
    is_ascii_chars_encode_utf8(decimal(b));
    let p = encode_utf8(decimal(a));
    let q = encode_utf8(decimal(b));
    let l = p + (seq![32u8] + x);
    let r = q + (seq![32u8] + y);
    assert(l[p.len() as int] == 32u8);
    assert(r[q.len() as int] == 32u8);
    assert forall|i: int| 0 <= i < p.len() implies #[trigger] p[i] != 32u8 by {
        assert(p[i] == decimal(a)[i] as u8);
    }
    assert forall|i: int| 0 <= i < q.len() implies #[trigger] q[i] != 32u8 by {
        assert(q[i] == decimal(b)[i] as u8);
    }
    if p.len() < q.len() {
        assert(r[p.len() as int] == q[p.len() as int]);
    }
    if q.len() < p.len() {
        assert(l[q.len() as int] == p[q.len() as int]);
    }
    assert(p =~= l.take(p.len() as int));
    assert(q =~= r.take(q.len() as int));
    lemma_utf8_injective(decimal(a), decimal(b));
    lemma_decimal_injective(a, b);
    assert(x =~= l.skip(p.len() as int + 1));
    assert(y =~= r.skip(q.len() as int + 1));
}

/// Decimal digits: a further digit makes ten times the number and that digit, no
/// number but zero begins with a zero, and the sign stands in front.
pub proof fn law_decimal_digits(n: nat, d: nat)
    requires
        d < 10,
    ensures
        n > 0 ==> decimal(10 * n + d) == decimal(n).push(decimal(d)[0]),
        decimal(d).len() == 1,
        decimal(d)[0] as u32 == 48 + d,
        n > 0 ==> decimal(n)[0] != '0',
        n > 0 ==> signed_decimal(-(n as int)) == seq!['-'] + decimal(n),
        signed_decimal(n as int) == decimal(n),
    decreases n,
{
    if n > 0 {
        assert((10 * n + d) / 10 == n);
        assert((10 * n + d) % 10 == d);
    }
    if n >= 10 {
        law_decimal_digits(n / 10, n % 10);
    }
}

/// Two hexadecimal digits stand for each byte, the higher half first.
pub proof fn law_hexadecimal_digits(bytes: Seq<u8>, b: u8)
    ensures
        hex_text(Seq::empty()) == Seq::<char>::empty(),
        hex_text(bytes.push(b)).len() == hex_text(bytes).len() + 2,
        hex_text(bytes.push(b)).take(hex_text(bytes).len() as int) == hex_text(bytes),
        ({
            let high = hex_text(bytes.push(b))[hex_text(bytes).len() as int] as int;
            let low = hex_text(bytes.push(b))[hex_text(bytes).len() as int + 1] as int;
            let value = |c: int| if c >= 97 {
                c - 87
            } else {
                c - 48
            };
            &&& (48 <= high <= 57 || 97 <= high <= 102) && (48 <= low <= 57 || 97 <= low <= 102)
            &&& value(high) * 16 + value(low) == b
        }),
{
    assert(bytes.push(b).drop_last() =~= bytes);
    assert(hex_text(bytes.push(b)).take(hex_text(bytes).len() as int) =~= hex_text(bytes));
}

proof fn lemma_trim_start(space: Seq<char>, s: Seq<char>)
    requires
        forall|i: int| 0 <= i < space.len() ==> is_whitespace(#[trigger] space[i]),
        s.len() == 0 || !is_whitespace(s[0]),
    ensures
        trim_start(space + s) == s,
    decreases space.len(),
{
    let whole = space + s;
    if space.len() > 0 {
        assert(whole[0] == space[0]);
        assert(whole.skip(1) =~= space.skip(1) + s);
        lemma_trim_start(space.skip(1), s);
    } else {
        assert(whole =~= s);
    }
}

proof fn lemma_trim_end(s: Seq<char>, space: Seq<char>)
    requires
        forall|i: int| 0 <= i < space.len() ==> is_whitespace(#[trigger] space[i]),
        s.len() == 0 || !is_whitespace(s.last()),
    ensures
        trim_end(s + space) == s,
    decreases space.len(),
{
    let whole = s + space;
    if space.len() > 0 {
        assert(whole.last() == space[space.len() - 1]);
        assert(whole.drop_last() =~= s + space.drop_last());
        lemma_trim_end(s, space.drop_last());
    } else {
        assert(whole =~= s);
    }
}

/// Trimming takes the whitespace off both ends, and nothing else.
pub proof fn law_trimming(before: Seq<char>, s: Seq<char>, after: Seq<char>)
    requires
        forall|i: int| 0 <= i < before.len() ==> is_whitespace(#[trigger] before[i]),
        forall|i: int| 0 <= i < after.len() ==> is_whitespace(#[trigger] after[i]),
        s.len() > 0,
        !is_whitespace(s[0]),
        !is_whitespace(s.last()),
    ensures
        trimmed(before + s + after) == s,
{
    assert(before + s + after =~= before + (s + after));
    assert((s + after)[0] == s[0]);
    lemma_trim_start(before, s + after);
    lemma_trim_end(s, after);
}

/// What counts as whitespace: tabs and line ends, the space, and the spaces and
/// separators of Unicode.
pub proof fn law_whitespace(c: char)
    ensures
        is_whitespace(c) <==> c == '\t' || c == '\n' || c == '\u{b}' || c == '\u{c}' || c == '\r' || c
            == ' ' || c == '\u{85}' || c == '\u{a0}' || c == '\u{1680}' || ('\u{2000}' <= c && c
            <= '\u{200a}') || c == '\u{2028}' || c == '\u{2029}' || c == '\u{202f}' || c
            == '\u{205f}' || c == '\u{3000}',
{
}

} // verus!
