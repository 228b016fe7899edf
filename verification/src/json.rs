//! Compact JSON: strings and arrays, and why their encoding is unambiguous.

use crate::text;
use vstd::prelude::*;
use vstd::string::*;

verus! {

/// A character inside a JSON string. Quotes, backslashes and control characters
/// are escaped, anything else stands for itself.
pub open spec fn escaped_char(c: char) -> Seq<char> {
    let n = c as int;
    if c == '"' || c == '\\' {
        seq!['\\', c]
    } else if n == 8 {
        seq!['\\', 'b']
    } else if n == 9 {
        seq!['\\', 't']
    } else if n == 10 {
        seq!['\\', 'n']
    } else if n == 12 {
        seq!['\\', 'f']
    } else if n == 13 {
        seq!['\\', 'r']
    } else if n < 32 {
        seq!['\\', 'u', '0', '0', text::hex_digit(n / 16), text::hex_digit(n % 16)]
    } else {
        seq![c]
    }
}

/// The characters of a JSON string between its quotes.
pub open spec fn escaped(s: Seq<char>) -> Seq<char>
    decreases s.len(),
{
    if s.len() == 0 {
        Seq::empty()
    } else {
        escaped_char(s[0]) + escaped(s.skip(1))
    }
}

/// A text as a JSON string.
pub open spec fn json_text(s: Seq<char>) -> Seq<char> {
    seq!['"'] + escaped(s) + seq!['"']
}

/// Calls `serde_json::to_string` on a string slice, which yields the compact
/// JSON string: the text between quotes, with `"`, `\` and control characters
/// escaped, by the short escapes where JSON has them and else as `\u00` and two
/// lowercase hexadecimal digits. Serializing a string into memory does not fail.
#[verifier::external_body]
pub(crate) fn json_string(s: &str) -> (json: String)
    ensures
        json@ == json_text(s@),
{
    serde_json::to_string(s).expect("a string is always representable")
}

/// Texts one behind the other with commas between them.
pub open spec fn comma_separated(items: Seq<Seq<char>>) -> Seq<char>
    decreases items.len(),
{
    if items.len() == 0 {
        Seq::empty()
    } else if items.len() == 1 {
        items[0]
    } else {
        comma_separated(items.drop_last()) + seq![','] + items.last()
    }
}

/// A JSON array of encoded items.
pub open spec fn json_array(items: Seq<Seq<char>>) -> Seq<char> {
    seq!['['] + comma_separated(items) + seq![']']
}

/// The texts as JSON strings.
pub open spec fn json_texts(list: Seq<Seq<char>>) -> Seq<Seq<char>> {
    list.map_values(|t: Seq<char>| json_text(t))
}

/// A list of texts as a JSON array.
pub open spec fn json_text_array(list: Seq<Seq<char>>) -> Seq<char> {
    json_array(json_texts(list))
}

/// Encodes a list of strings as a JSON array.
pub fn json_string_array(list: &[String]) -> (json: String)
    ensures
        json@ == json_text_array(text::texts(list@)),
{
    let mut items: Vec<String> = Vec::new();
    for i in 0..list.len()
        invariant
            items@.len() == i,
            forall|k: int| 0 <= k < i ==> (#[trigger] items@[k])@ == json_text(list@[k]@),
    {
        items.push(json_string(list[i].as_str()));
    }
    assert(text::texts(items@) =~= json_texts(text::texts(list@)));
    json_array_of(&items)
}

/// Writes encoded items as a JSON array.
pub fn json_array_of(items: &Vec<String>) -> (json: String)
    ensures
        json@ == json_array(text::texts(items@)),
{
    let ghost t = text::texts(items@);
    let mut json = "[".to_string();
    proof {
        reveal_strlit("[");
        reveal_strlit("]");
        reveal_strlit(",");
        assert("["@ =~= seq!['[']);
        assert("]"@ =~= seq![']']);
        assert(","@ =~= seq![',']);
        assert(json@ =~= seq!['['] + comma_separated(t.take(0)));
    }
    for i in 0..items.len()
        invariant
            t == text::texts(items@),
            ","@ == seq![','],
            json@ == seq!['['] + comma_separated(t.take(i as int)),
    {
        let ghost before = json@;
        if i > 0 {
            json.append(",");
        }
        json.append(items[i].as_str());
        proof {
            let p = t.take(i as int + 1);
            assert(p.drop_last() =~= t.take(i as int));
            assert(json@ =~= seq!['['] + comma_separated(p));
        }
    }
    assert(t.take(t.len() as int) =~= t);
    json.append("]");
    json
}

// ---------------------------------------------------------------------------
// Unambiguity
// ---------------------------------------------------------------------------

proof fn lemma_hex_digit_injective(a: int, b: int)
    requires
        0 <= a < 16,
        0 <= b < 16,
        text::hex_digit(a) == text::hex_digit(b),
    ensures
        a == b,
{
}

/// Two escaped characters at the head of the same text are the same.
proof fn lemma_escaped_char_unique(a: char, b: char, x: Seq<char>, y: Seq<char>)
    requires
        escaped_char(a) + x == escaped_char(b) + y,
    ensures
        a == b,
        x == y,
{
    let l = escaped_char(a) + x;
    let r = escaped_char(b) + y;
    let ea = escaped_char(a);
    let eb = escaped_char(b);
    assert(l[0] == ea[0] && r[0] == eb[0]);
    if ea.len() > 1 {
        assert(l[1] == ea[1]);
    }
    if eb.len() > 1 {
        assert(r[1] == eb[1]);
    }
    if ea.len() == 6 && eb.len() == 6 {
        assert(l[4] == ea[4] && r[4] == eb[4]);
        assert(l[5] == ea[5] && r[5] == eb[5]);
        lemma_hex_digit_injective(a as int / 16, b as int / 16);
        lemma_hex_digit_injective(a as int % 16, b as int % 16);
    }
    assert(a == b);
    assert(x =~= l.skip(ea.len() as int));
    assert(y =~= r.skip(eb.len() as int));
}

/// A JSON string at the head of a text is found in one way only.
pub proof fn lemma_json_text_unique(a: Seq<char>, b: Seq<char>, x: Seq<char>, y: Seq<char>)
    requires
        json_text(a) + x == json_text(b) + y,
    ensures
        a == b,
        x == y,
{
    let q = seq!['"'];
    let l = json_text(a) + x;
    let r = json_text(b) + y;
    assert(l.skip(1) =~= escaped(a) + (q + x));
    assert(r.skip(1) =~= escaped(b) + (q + y));
    lemma_escaped_unique(a, b, x, y);
}

proof fn lemma_escaped_unique(a: Seq<char>, b: Seq<char>, x: Seq<char>, y: Seq<char>)
    requires
        escaped(a) + (seq!['"'] + x) == escaped(b) + (seq!['"'] + y),
    ensures
        a == b,
        x == y,
    decreases a.len(),
{
    let q = seq!['"'];
    let l = escaped(a) + (q + x);
    let r = escaped(b) + (q + y);
    if a.len() == 0 {
        assert(l[0] == '"');
        if b.len() > 0 {
            assert(r[0] == escaped_char(b[0])[0]);
        }
        assert(a =~= b);
        assert(x =~= l.skip(1));
        assert(y =~= r.skip(1));
    } else if b.len() == 0 {
        assert(r[0] == '"');
        assert(l[0] == escaped_char(a[0])[0]);
    } else {
        let ta = escaped(a.skip(1)) + (q + x);
        let tb = escaped(b.skip(1)) + (q + y);
        assert(l =~= escaped_char(a[0]) + ta);
        assert(r =~= escaped_char(b[0]) + tb);
        lemma_escaped_char_unique(a[0], b[0], ta, tb);
        lemma_escaped_unique(a.skip(1), b.skip(1), x, y);
        assert(a =~= seq![a[0]] + a.skip(1));
        assert(b =~= seq![b[0]] + b.skip(1));
    }
}

proof fn lemma_comma_separated_head(items: Seq<Seq<char>>)
    requires
        items.len() > 1,
    ensures
        comma_separated(items) == items[0] + seq![','] + comma_separated(items.skip(1)),
    decreases items.len(),
{
    if items.len() == 2 {
        assert(items.drop_last()[0] == items[0]);
        assert(items.skip(1)[0] == items[1]);
        assert(comma_separated(items.drop_last()) == items[0]);
        assert(comma_separated(items.skip(1)) == items[1]);
    } else {
        lemma_comma_separated_head(items.drop_last());
        assert(items.drop_last().skip(1) =~= items.skip(1).drop_last());
        let rest = comma_separated(items.skip(1).drop_last());
        assert(comma_separated(items.skip(1)) == rest + seq![','] + items.last());
        assert(comma_separated(items) =~= items[0] + seq![','] + comma_separated(items.skip(1)));
    }
}

/// Whether encoded items at the head of a text are found in one way only.
pub open spec fn unambiguous<T>(encode: spec_fn(T) -> Seq<char>) -> bool {
    &&& forall|a: T| (#[trigger] encode(a)).len() > 0 && encode(a)[0] != ']'
    &&& forall|a: T, b: T, x: Seq<char>, y: Seq<char>|
        #![trigger encode(a) + x, encode(b) + y]
        encode(a) + x == encode(b) + y ==> a == b && x == y
}

/// A JSON array of items at the head of a text is found in one way only.
pub proof fn lemma_json_array_unique<T>(
    encode: spec_fn(T) -> Seq<char>,
    a: Seq<T>,
    b: Seq<T>,
    x: Seq<char>,
    y: Seq<char>,
)
    requires
        unambiguous(encode),
        json_array(a.map_values(encode)) + x == json_array(b.map_values(encode)) + y,
    ensures
        a == b,
        x == y,
{
    let l = json_array(a.map_values(encode)) + x;
    let r = json_array(b.map_values(encode)) + y;
    assert(l.skip(1) =~= comma_separated(a.map_values(encode)) + (seq![']'] + x));
    assert(r.skip(1) =~= comma_separated(b.map_values(encode)) + (seq![']'] + y));
    if a.len() == 0 {
        assert(l[1] == ']');
        if b.len() > 0 {
            lemma_first_of_items(encode, b);
            assert(r[1] == encode(b[0])[0]);
        }
        assert(a =~= b);
        assert(x =~= l.skip(2));
        assert(y =~= r.skip(2));
    } else if b.len() == 0 {
        lemma_first_of_items(encode, a);
        assert(r[1] == ']');
        assert(l[1] == encode(a[0])[0]);
    } else {
        lemma_items_unique(encode, a, b, x, y);
    }
}

proof fn lemma_first_of_items<T>(encode: spec_fn(T) -> Seq<char>, a: Seq<T>)
    requires
        unambiguous(encode),
        a.len() > 0,
    ensures
        comma_separated(a.map_values(encode)).len() > 0,
        comma_separated(a.map_values(encode))[0] == encode(a[0])[0],
{
    let items = a.map_values(encode);
    assert(items[0] == encode(a[0]));
    if items.len() > 1 {
        lemma_comma_separated_head(items);
    }
}

proof fn lemma_items_unique<T>(
    encode: spec_fn(T) -> Seq<char>,
    a: Seq<T>,
    b: Seq<T>,
    x: Seq<char>,
    y: Seq<char>,
)
    requires
        unambiguous(encode),
        a.len() > 0,
        b.len() > 0,
        comma_separated(a.map_values(encode)) + (seq![']'] + x) == comma_separated(
            b.map_values(encode),
        ) + (seq![']'] + y),
    ensures
        a == b,
        x == y,
    decreases a.len(),
{
    let ia = a.map_values(encode);
    let ib = b.map_values(encode);
    let end_x = seq![']'] + x;
    let end_y = seq![']'] + y;
    assert(ia[0] == encode(a[0]));
    assert(ib[0] == encode(b[0]));
    let ra = if a.len() == 1 {
        end_x
    } else {
        seq![','] + (comma_separated(ia.skip(1)) + end_x)
    };
    let rb = if b.len() == 1 {
        end_y
    } else {
        seq![','] + (comma_separated(ib.skip(1)) + end_y)
    };
    if a.len() > 1 {
        lemma_comma_separated_head(ia);
    }
    if b.len() > 1 {
        lemma_comma_separated_head(ib);
    }
    assert(comma_separated(ia) + end_x =~= encode(a[0]) + ra);
    assert(comma_separated(ib) + end_y =~= encode(b[0]) + rb);
    assert(a[0] == b[0] && ra == rb);
    assert(a.skip(1).map_values(encode) =~= ia.skip(1));
    assert(b.skip(1).map_values(encode) =~= ib.skip(1));
    if a.len() == 1 && b.len() == 1 {
        assert(a =~= b);
        assert(x =~= end_x.skip(1));
        assert(y =~= end_y.skip(1));
    } else if a.len() == 1 {
        assert(ra[0] == ']' && rb[0] == ',');
    } else if b.len() == 1 {
        assert(ra[0] == ',' && rb[0] == ']');
    } else {
        assert(comma_separated(ia.skip(1)) + end_x =~= ra.skip(1));
        assert(comma_separated(ib.skip(1)) + end_y =~= rb.skip(1));
        lemma_items_unique(encode, a.skip(1), b.skip(1), x, y);
        assert(a =~= seq![a[0]] + a.skip(1));
        assert(b =~= seq![b[0]] + b.skip(1));
    }
}

/// An array of strings at the head of a text is found in one way only.
pub proof fn lemma_json_text_array_unique(
    a: Seq<Seq<char>>,
    b: Seq<Seq<char>>,
    x: Seq<char>,
    y: Seq<char>,
)
    requires
        json_text_array(a) + x == json_text_array(b) + y,
    ensures
        a == b,
        x == y,
{
    let encode = |t: Seq<char>| json_text(t);
    assert(unambiguous(encode)) by {
        assert forall|p: Seq<char>, q: Seq<char>, u: Seq<char>, v: Seq<char>|
            #![trigger encode(p) + u, encode(q) + v]
            encode(p) + u == encode(q) + v implies p == q && u == v by {
            lemma_json_text_unique(p, q, u, v);
        }
    }
    lemma_json_array_unique(encode, a, b, x, y);
}

} // verus!
