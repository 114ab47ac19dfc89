//! Rewriting the field list of a struct literal.
//!
//! Given the source text of an item that ends in a struct literal
//! `Self { ... }`, the text between the last `{` and the first `}` is replaced
//! by one `name: value,` line per field, indented as the first line of the
//! old body was.
use vstd::prelude::*;
use vstd::string::*;

verus! {

broadcast use vstd::string::group_string_axioms;

/// A field of the new literal and the source text of its value.
pub struct FieldValue {
    pub name: String,
    pub value: String,
}

/// Byte index of the last occurrence of `x` in `b`, or -1.
pub open spec fn last_byte_index(b: Seq<u8>, x: u8) -> int
    decreases b.len(),
{
    if b.len() == 0 {
        -1
    } else if b.last() == x {
        b.len() - 1
    } else {
        last_byte_index(b.drop_last(), x)
    }
}

/// Byte index of the first occurrence of `x` in `b`, or -1.
pub open spec fn first_byte_index(b: Seq<u8>, x: u8) -> int
    decreases b.len(),
{
    if b.len() == 0 {
        -1
    } else if first_byte_index(b.drop_last(), x) >= 0 {
        first_byte_index(b.drop_last(), x)
    } else if b.last() == x {
        b.len() - 1
    } else {
        -1
    }
}

/// `char::is_whitespace`: the Unicode `White_Space` property.
pub open spec fn is_unicode_whitespace(c: char) -> bool {
    ||| '\u{9}' <= c <= '\u{d}'
    ||| c == ' '
    ||| c == '\u{85}'
    ||| c == '\u{a0}'
    ||| c == '\u{1680}'
    ||| '\u{2000}' <= c <= '\u{200a}'
    ||| c == '\u{2028}'
    ||| c == '\u{2029}'
    ||| c == '\u{202f}'
    ||| c == '\u{205f}'
    ||| c == '\u{3000}'
}

/// Whether a character is white space.
pub fn is_whitespace(c: char) -> (b: bool)
    ensures
        b == is_unicode_whitespace(c),
{
    ('\u{9}' <= c && c <= '\u{d}') || c == ' ' || c == '\u{85}' || c == '\u{a0}' || c
        == '\u{1680}' || ('\u{2000}' <= c && c <= '\u{200a}') || c == '\u{2028}' || c == '\u{2029}'
        || c == '\u{202f}' || c == '\u{205f}' || c == '\u{3000}'
}

/// Length of the longest prefix of `s` whose characters all satisfy `p`.
pub open spec fn prefix_len(s: Seq<char>, p: spec_fn(char) -> bool) -> int
    decreases s.len(),
{
    if s.len() == 0 {
        0
    } else if p(s[0]) {
        1 + prefix_len(s.drop_first(), p)
    } else {
        0
    }
}

/// The indentation of a body: its leading white space, without the line
/// breaks it starts with.
pub open spec fn spec_indent(inner: Seq<char>) -> Seq<char> {
    let ws = inner.take(prefix_len(inner, |c: char| is_unicode_whitespace(c)));
    ws.skip(prefix_len(ws, |c: char| c == '\n'))
}

/// The new body: one `name: value,` line per field, then the indentation.
pub open spec fn spec_body(indent: Seq<char>, fields: Seq<FieldValue>) -> Seq<char>
    decreases fields.len(),
{
    if fields.len() == 0 {
        indent
    } else {
        let f = fields[0];
        indent + f.name@ + ": "@ + f.value@ + ",\n"@ + spec_body(indent, fields.drop_first())
    }
}

pub open spec fn min(a: int, b: int) -> int {
    if a <= b {
        a
    } else {
        b
    }
}

/// The rewritten item. `open` and `close` are the byte positions of the last
/// `{` and of the first `}`, which are used as counts of characters.
pub open spec fn spec_splice(item: &str, fields: Seq<FieldValue>) -> Seq<char> {
    let chars = item@;
    let n = chars.len() as int;
    let open = last_byte_index(item.spec_bytes(), 123u8);
    let close = first_byte_index(item.spec_bytes(), 125u8);
    let start = min(open + 1, n);
    let inner = chars.skip(start).take(min(close - open - 1, n - start));
    chars.take(start) + spec_body(spec_indent(inner), fields) + chars.skip(min(close, n))
}

/// The item has a `{` and, after the last one, its first `}` comes later.
pub open spec fn spliceable(item: &str) -> bool {
    let open = last_byte_index(item.spec_bytes(), 123u8);
    let close = first_byte_index(item.spec_bytes(), 125u8);
    open >= 0 && close > open
}

proof fn lemma_last_byte_bounds(b: Seq<u8>, x: u8)
    ensures
        -1 <= last_byte_index(b, x) < b.len(),
        last_byte_index(b, x) >= 0 ==> b[last_byte_index(b, x)] == x,
        forall|j: int| last_byte_index(b, x) < j < b.len() ==> b[j] != x,
    decreases b.len(),
{
    if b.len() > 0 {
        let rest = b.drop_last();
        lemma_last_byte_bounds(rest, x);
        if b.last() != x {
            assert forall|j: int| last_byte_index(b, x) < j < b.len() implies b[j] != x by {
                if j < b.len() - 1 {
                    assert(rest[j] == b[j]);
                }
            }
        }
    }
}

proof fn lemma_first_byte_bounds(b: Seq<u8>, x: u8)
    ensures
        -1 <= first_byte_index(b, x) < b.len(),
        first_byte_index(b, x) >= 0 ==> b[first_byte_index(b, x)] == x,
        forall|j: int|
            0 <= j < b.len() && (first_byte_index(b, x) == -1 || j < first_byte_index(b, x))
                ==> b[j] != x,
    decreases b.len(),
{
    if b.len() > 0 {
        let rest = b.drop_last();
        lemma_first_byte_bounds(rest, x);
        assert forall|j: int|
            0 <= j < b.len() && (first_byte_index(b, x) == -1 || j < first_byte_index(
                b,
                x,
            )) implies b[j] != x by {
            if j < b.len() - 1 {
                assert(rest[j] == b[j]);
            }
        }
    }
}

fn find_last_byte(b: &[u8], x: u8) -> (i: i64)
    requires
        b@.len() < i64::MAX,
    ensures
        i == last_byte_index(b@, x),
{
    proof {
        lemma_last_byte_bounds(b@, x);
    }
    let mut k: usize = b.len();
    while k > 0
        invariant
            k <= b@.len(),
            b@.len() < i64::MAX,
            forall|j: int| k <= j < b@.len() ==> b@[j] != x,
            -1 <= last_byte_index(b@, x) < b@.len(),
            last_byte_index(b@, x) >= 0 ==> b@[last_byte_index(b@, x)] == x,
            forall|j: int| last_byte_index(b@, x) < j < b@.len() ==> b@[j] != x,
        decreases k,
    {
        if b[k - 1] == x {
            return (k - 1) as i64;
        }
        k = k - 1;
    }
    -1
}

fn find_first_byte(b: &[u8], x: u8) -> (i: i64)
    requires
        b@.len() < i64::MAX,
    ensures
        i == first_byte_index(b@, x),
{
    proof {
        lemma_first_byte_bounds(b@, x);
    }
    let mut k: usize = 0;
    while k < b.len()
        invariant
            k <= b@.len(),
            b@.len() < i64::MAX,
            forall|j: int| 0 <= j < k ==> b@[j] != x,
            -1 <= first_byte_index(b@, x) < b@.len(),
            first_byte_index(b@, x) >= 0 ==> b@[first_byte_index(b@, x)] == x,
            forall|j: int|
                0 <= j < b@.len() && (first_byte_index(b@, x) == -1 || j < first_byte_index(
                    b@,
                    x,
                )) ==> b@[j] != x,
        decreases b@.len() - k,
    {
        if b[k] == x {
            return k as i64;
        }
        k = k + 1;
    }
    -1
}

/// `prefix_len` is the first position where `p` fails.
proof fn lemma_prefix_len_is_first_failure(s: Seq<char>, p: spec_fn(char) -> bool, k: int)
    requires
        0 <= k <= s.len(),
        forall|j: int| 0 <= j < k ==> p(s[j]),
        k < s.len() ==> !p(s[k]),
    ensures
        prefix_len(s, p) == k,
    decreases s.len(),
{
    if k > 0 {
        let rest = s.drop_first();
        assert forall|j: int| 0 <= j < k - 1 implies p(rest[j]) by {
            assert(rest[j] == s[j + 1]);
        }
        lemma_prefix_len_is_first_failure(rest, p, k - 1);
    }
}

fn indent_of(inner: &str) -> (r: String)
    ensures
        r@ == spec_indent(inner@),
{
    let n = inner.unicode_len();
    let mut w: usize = 0;
    while w < n && is_whitespace(inner.get_char(w))
        invariant
            n == inner@.len(),
            w <= n,
            forall|j: int| 0 <= j < w ==> is_unicode_whitespace(inner@[j]),
        decreases n - w,
    {
        w = w + 1;
    }
    let ghost pws = |c: char| is_unicode_whitespace(c);
    proof {
        lemma_prefix_len_is_first_failure(inner@, pws, w as int);
    }
    let ghost ws = inner@.take(w as int);
    let mut k: usize = 0;
    while k < w && inner.get_char(k) == '\n'
        invariant
            n == inner@.len(),
            w <= n,
            k <= w,
            ws == inner@.take(w as int),
            forall|j: int| 0 <= j < k ==> inner@[j] == '\n',
        decreases w - k,
    {
        k = k + 1;
    }
    let ghost pnl = |c: char| c == '\n';
    proof {
        assert forall|j: int| 0 <= j < k implies pnl(ws[j]) by {
            assert(ws[j] == inner@[j]);
        }
        if k < w {
            assert(ws[k as int] == inner@[k as int]);
        }
        lemma_prefix_len_is_first_failure(ws, pnl, k as int);
    }
    let r = inner.substring_char(k, w).to_string();
    proof {
        assert(r@ =~= ws.skip(k as int));
    }
    r
}

/// Rewrites the field list of the struct literal at the end of `item`.
pub fn splice_fields(item: &str, fields: &Vec<FieldValue>) -> (r: String)
    requires
        spliceable(item),
        item.spec_bytes().len() < i64::MAX,
    ensures
        r@ == spec_splice(item, fields@),
{
    let bytes = item.as_bytes();
    let blen = bytes.len();
    let open = find_last_byte(bytes, 123u8);
    let close = find_first_byte(bytes, 125u8);
    proof {
        lemma_last_byte_bounds(item.spec_bytes(), 123u8);
        lemma_first_byte_bounds(item.spec_bytes(), 125u8);
        assert(0 <= open < close < blen);
    }
    let n = item.unicode_len();
    let open_u = open as usize;
    let close_u = close as usize;
    let start: usize = if open_u + 1 <= n {
        open_u + 1
    } else {
        n
    };
    let span: usize = close_u - open_u - 1;
    let end: usize = if span <= n - start {
        start + span
    } else {
        n
    };
    let post_start: usize = if close_u <= n {
        close_u
    } else {
        n
    };
    let inner = item.substring_char(start, end);
    proof {
        assert(inner@ =~= item@.skip(start as int).take(min(close - open - 1, n - start)));
    }
    let indent = indent_of(inner);
    let mut r = item.substring_char(0, start).to_string();
    let ghost prefix = r@;
    let mut i: usize = 0;
    proof {
        assert(fields@.skip(0) =~= fields@);
    }
    while i < fields.len()
        invariant
            i <= fields@.len(),
            r@ + spec_body(indent@, fields@.skip(i as int)) == prefix + spec_body(
                indent@,
                fields@,
            ),
        decreases fields@.len() - i,
    {
        let ghost before = r@;
        let f = &fields[i];
        r.append(indent.as_str());
        r.append(f.name.as_str());
        r.append(": ");
        r.append(f.value.as_str());
        r.append(",\n");
        proof {
            let rest = fields@.skip(i as int);
            assert(rest[0] == fields@[i as int]);
            assert(rest.drop_first() =~= fields@.skip(i as int + 1));
            assert(r@ =~= before + indent@ + f.name@ + ": "@ + f.value@ + ",\n"@);
            assert(r@ + spec_body(indent@, fields@.skip(i as int + 1)) =~= before + spec_body(
                indent@,
                rest,
            ));
        }
        i = i + 1;
    }
    r.append(indent.as_str());
    r.append(item.substring_char(post_start, n));
    proof {
        assert(fields@.skip(0) =~= fields@);
        assert(fields@.skip(fields@.len() as int) =~= Seq::<FieldValue>::empty());
        assert(r@ =~= spec_splice(item, fields@));
    }
    r
}

} // verus!
