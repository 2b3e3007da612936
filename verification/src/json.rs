//! The persistence format: a pretty-printed JSON object whose keys are date
//! strings and whose values are arrays of non-negative integers, e.g.
//! `{"2024-01-15": [300, 450]}` with two-space indentation. Rendering and
//! parsing are both defined here, and parsing a rendered document gives the
//! mapping back unchanged.
use vstd::prelude::*;
use vstd::string::*;
use crate::num::{dec_of, digit_val, is_digit, lemma_dec_of, num_val, u32_to_dec};
use crate::store::{date_key, kv_has, wf_kv, Data, Kv, StorageError};

verus! {

// ----- the rendered form -----
/// One entry line inside an array: four spaces of indentation, then digits.
pub open spec fn item_of(v: u32) -> Seq<char> {
    seq![' ', ' ', ' ', ' '] + dec_of(v as nat)
}

/// The remaining entry lines of an array, each preceded by a separator.
pub open spec fn items_tail(vs: Seq<u32>) -> Seq<char>
    decreases vs.len(),
{
    if vs.len() == 0 {
        Seq::empty()
    } else {
        seq![',', '\n'] + item_of(vs[0]) + items_tail(vs.drop_first())
    }
}

/// A rendered array of entries.
pub open spec fn array_of(vs: Seq<u32>) -> Seq<char> {
    if vs.len() == 0 {
        seq!['[', ']']
    } else {
        seq!['[', '\n'] + item_of(vs[0]) + items_tail(vs.drop_first()) + seq!['\n', ' ', ' ', ']']
    }
}

/// One rendered key/value member of the document.
pub open spec fn pair_of(p: (Seq<char>, Seq<u32>)) -> Seq<char> {
    seq![' ', ' ', '"'] + p.0 + seq!['"', ':', ' '] + array_of(p.1)
}

/// The remaining members of the document, each preceded by a separator.
pub open spec fn pairs_tail(kv: Kv) -> Seq<char>
    decreases kv.len(),
{
    if kv.len() == 0 {
        Seq::empty()
    } else {
        seq![',', '\n'] + pair_of(kv[0]) + pairs_tail(kv.drop_first())
    }
}

/// The rendered document for a whole mapping.
pub open spec fn json_of(kv: Kv) -> Seq<char> {
    if kv.len() == 0 {
        seq!['{', '}']
    } else {
        seq!['{', '\n'] + pair_of(kv[0]) + pairs_tail(kv.drop_first()) + seq!['\n', '}']
    }
}

pub proof fn lemma_items_tail_app(a: Seq<u32>, b: Seq<u32>)
    ensures
        items_tail(a + b) == items_tail(a) + items_tail(b),
    decreases a.len(),
{
    if a.len() == 0 {
        assert(a + b =~= b);
        assert(items_tail(a) + items_tail(b) =~= items_tail(b));
    } else {
        lemma_items_tail_app(a.drop_first(), b);
        assert((a + b).drop_first() =~= a.drop_first() + b);
        assert((a + b)[0] == a[0]);
        assert(items_tail(a + b) =~= items_tail(a) + items_tail(b));
    }
}

pub proof fn lemma_pairs_tail_app(a: Kv, b: Kv)
    ensures
        pairs_tail(a + b) == pairs_tail(a) + pairs_tail(b),
    decreases a.len(),
{
    if a.len() == 0 {
        assert(a + b =~= b);
        assert(pairs_tail(a) + pairs_tail(b) =~= pairs_tail(b));
    } else {
        lemma_pairs_tail_app(a.drop_first(), b);
        assert((a + b).drop_first() =~= a.drop_first() + b);
        assert((a + b)[0] == a[0]);
        assert(pairs_tail(a + b) =~= pairs_tail(a) + pairs_tail(b));
    }
}

// ----- rendering, executable -----
fn render_array(v: &Vec<u32>, out: &mut String)
    ensures
        final(out)@ == old(out)@ + array_of(v@),
{
    let m = v.len();
    if m == 0 {
        proof {
            reveal_strlit("[]");
        }
        out.append("[]");
        proof {
            assert(out@ =~= old(out)@ + array_of(v@));
        }
        return ;
    }
    proof {
        reveal_strlit("[\n");
        reveal_strlit("    ");
        reveal_strlit(",\n");
        reveal_strlit("\n  ]");
    }
    out.append("[\n");
    out.append("    ");
    let first = u32_to_dec(v[0]);
    out.append(first.as_str());
    let ghost base = old(out)@ + seq!['[', '\n'] + item_of(v@[0]);
    proof {
        assert(out@ =~= base + items_tail(v@.subrange(1, 1)));
    }
    let mut i: usize = 1;
    while i < m
        invariant
            m == v@.len(),
            1 <= i <= m,
            out@ == base + items_tail(v@.subrange(1, i as int)),
        decreases m - i,
    {
        out.append(",\n");
        out.append("    ");
        let ds = u32_to_dec(v[i]);
        out.append(ds.as_str());
        proof {
            reveal_strlit(",\n");
            reveal_strlit("    ");
            lemma_items_tail_app(v@.subrange(1, i as int), seq![v@[i as int]]);
            assert(v@.subrange(1, i as int) + seq![v@[i as int]] =~= v@.subrange(1, i as int + 1));
            assert(seq![v@[i as int]].drop_first() =~= Seq::<u32>::empty());
            assert(items_tail(Seq::<u32>::empty()) =~= Seq::<char>::empty());
            assert(items_tail(seq![v@[i as int]]) =~= seq![',', '\n'] + item_of(v@[i as int]));
            assert(out@ =~= base + items_tail(v@.subrange(1, i as int + 1)));
        }
        i += 1;
    }
    out.append("\n  ]");
    proof {
        assert(v@.subrange(1, m as int) =~= v@.drop_first());
        assert(out@ =~= old(out)@ + array_of(v@));
    }
}

/// Renders the whole mapping as its JSON document.
pub fn render_data(d: &Data) -> (r: String)
    ensures
        r@ == json_of(d@),
{
    let n = d.len();
    if n == 0 {
        proof {
            reveal_strlit("{}");
        }
        let r = String::from_str("{}");
        proof {
            assert(r@ =~= json_of(d@));
        }
        return r;
    }
    proof {
        reveal_strlit("{\n");
        reveal_strlit("  \"");
        reveal_strlit("\": ");
        reveal_strlit(",\n");
        reveal_strlit("\n}");
    }
    let mut out = String::from_str("{\n");
    out.append("  \"");
    out.append(d.key_at(0));
    out.append("\": ");
    render_array(d.entries_at(0), &mut out);
    let ghost base = seq!['{', '\n'] + pair_of(d@[0]);
    proof {
        assert(out@ =~= base + pairs_tail(d@.subrange(1, 1)));
    }
    let mut i: usize = 1;
    while i < n
        invariant
            n == d@.len(),
            1 <= i <= n,
            out@ == base + pairs_tail(d@.subrange(1, i as int)),
        decreases n - i,
    {
        out.append(",\n");
        out.append("  \"");
        out.append(d.key_at(i));
        out.append("\": ");
        render_array(d.entries_at(i), &mut out);
        proof {
            reveal_strlit(",\n");
            reveal_strlit("  \"");
            reveal_strlit("\": ");
            lemma_pairs_tail_app(d@.subrange(1, i as int), seq![d@[i as int]]);
            assert(d@.subrange(1, i as int) + seq![d@[i as int]] =~= d@.subrange(1, i as int + 1));
            assert(seq![d@[i as int]].drop_first() =~= Seq::<(Seq<char>, Seq<u32>)>::empty());
            assert(pairs_tail(Seq::<(Seq<char>, Seq<u32>)>::empty()) =~= Seq::<char>::empty());
            assert(pairs_tail(seq![d@[i as int]]) =~= seq![',', '\n'] + pair_of(d@[i as int]));
            assert(out@ =~= base + pairs_tail(d@.subrange(1, i as int + 1)));
        }
        i += 1;
    }
    out.append("\n}");
    proof {
        assert(d@.subrange(1, n as int) =~= d@.drop_first());
        assert(out@ =~= json_of(d@));
    }
    out
}

// ----- the accepted form -----
pub open spec fn is_ws(c: char) -> bool {
    c == ' ' || c == '\n' || c == '\t' || c == '\r'
}

/// A character that may stand unescaped inside a key string.
pub open spec fn is_plain(c: char) -> bool {
    c != '"' && c != '\\'
}

/// The first position at or after `i` that does not hold whitespace.
pub open spec fn skip_ws(s: Seq<char>, i: int) -> int
    decreases s.len() - i,
{
    if 0 <= i < s.len() && is_ws(s[i]) {
        skip_ws(s, i + 1)
    } else {
        i
    }
}

/// The first position at or after `i` that does not hold a digit.
pub open spec fn digits_end(s: Seq<char>, i: int) -> int
    decreases s.len() - i,
{
    if 0 <= i < s.len() && is_digit(s[i]) {
        digits_end(s, i + 1)
    } else {
        i
    }
}

/// The first position at or after `i` that ends a key string.
pub open spec fn plain_end(s: Seq<char>, i: int) -> int
    decreases s.len() - i,
{
    if 0 <= i < s.len() && is_plain(s[i]) {
        plain_end(s, i + 1)
    } else {
        i
    }
}

pub proof fn lemma_digits_end_le(s: Seq<char>, i: int)
    requires
        0 <= i <= s.len(),
    ensures
        i <= digits_end(s, i) <= s.len(),
    decreases s.len() - i,
{
    if i < s.len() && is_digit(s[i]) {
        lemma_digits_end_le(s, i + 1);
    }
}

/// A number: a run of digits with no superfluous leading zero, whose value
/// fits a `u32`.
pub open spec fn parse_num(s: Seq<char>, i: int) -> Option<(u32, int)> {
    if 0 <= i < s.len() && is_digit(s[i]) {
        let j = digits_end(s, i);
        if s[i] == '0' && j > i + 1 {
            None
        } else if num_val(s.subrange(i, j)) <= u32::MAX {
            Some((num_val(s.subrange(i, j)) as u32, j))
        } else {
            None
        }
    } else {
        None
    }
}

/// A key string: a quote, unescaped characters, a closing quote.
pub open spec fn parse_string(s: Seq<char>, i: int) -> Option<(Seq<char>, int)> {
    if 0 <= i < s.len() && s[i] == '"' {
        let j = plain_end(s, i + 1);
        if j < s.len() && s[j] == '"' {
            Some((s.subrange(i + 1, j), j + 1))
        } else {
            None
        }
    } else {
        None
    }
}

/// The members of an array after its first number: separators and numbers
/// until the closing bracket.
pub open spec fn parse_array_rest(s: Seq<char>, i: int, acc: Seq<u32>) -> Option<(Seq<u32>, int)>
    decreases s.len() - i,
{
    let j = skip_ws(s, i);
    if j < s.len() && s[j] == ']' {
        Some((acc, j + 1))
    } else if j < s.len() && s[j] == ',' {
        match parse_num(s, skip_ws(s, j + 1)) {
            None => None,
            Some((v, p)) => if i < p <= s.len() {
                parse_array_rest(s, p, acc.push(v))
            } else {
                None
            },
        }
    } else {
        None
    }
}

/// An array of numbers in brackets.
pub open spec fn parse_array(s: Seq<char>, i: int) -> Option<(Seq<u32>, int)> {
    if 0 <= i < s.len() && s[i] == '[' {
        let j = skip_ws(s, i + 1);
        if j < s.len() && s[j] == ']' {
            Some((Seq::empty(), j + 1))
        } else {
            match parse_num(s, j) {
                None => None,
                Some((v, p)) => if i < p <= s.len() {
                    parse_array_rest(s, p, seq![v])
                } else {
                    None
                },
            }
        }
    } else {
        None
    }
}

/// One member: a date key, a colon, an array of entries.
pub open spec fn parse_pair(s: Seq<char>, i: int) -> Option<((Seq<char>, Seq<u32>), int)> {
    match parse_string(s, i) {
        None => None,
        Some((k, p)) => if !date_key(k) {
            None
        } else {
            let q = skip_ws(s, p);
            if q < s.len() && s[q] == ':' {
                match parse_array(s, skip_ws(s, q + 1)) {
                    None => None,
                    Some((vs, e)) => Some(((k, vs), e)),
                }
            } else {
                None
            }
        },
    }
}

/// The members of the document after its first pair; a repeated key is
/// refused.
pub open spec fn parse_members_rest(s: Seq<char>, i: int, acc: Kv) -> Option<(Kv, int)>
    decreases s.len() - i,
{
    let j = skip_ws(s, i);
    if j < s.len() && s[j] == '}' {
        Some((acc, j + 1))
    } else if j < s.len() && s[j] == ',' {
        match parse_pair(s, skip_ws(s, j + 1)) {
            None => None,
            Some((p, e)) => if kv_has(acc, p.0) {
                None
            } else if i < e <= s.len() {
                parse_members_rest(s, e, acc.push(p))
            } else {
                None
            },
        }
    } else {
        None
    }
}

/// The document object: members in braces.
pub open spec fn parse_object(s: Seq<char>, i: int) -> Option<(Kv, int)> {
    if 0 <= i < s.len() && s[i] == '{' {
        let j = skip_ws(s, i + 1);
        if j < s.len() && s[j] == '}' {
            Some((Seq::empty(), j + 1))
        } else {
            match parse_pair(s, j) {
                None => None,
                Some((p, e)) => if i < e <= s.len() {
                    parse_members_rest(s, e, seq![p])
                } else {
                    None
                },
            }
        }
    } else {
        None
    }
}

/// The whole document: one object, nothing but whitespace around it.
pub open spec fn spec_parse_data(s: Seq<char>) -> Option<Kv> {
    match parse_object(s, skip_ws(s, 0)) {
        None => None,
        Some((kv, e)) => if skip_ws(s, e) == s.len() {
            Some(kv)
        } else {
            None
        },
    }
}

// ----- parsing, executable -----
fn is_ws_exec(c: char) -> (r: bool)
    ensures
        r == is_ws(c),
{
    c == ' ' || c == '\n' || c == '\t' || c == '\r'
}

fn is_plain_exec(c: char) -> (r: bool)
    ensures
        r == is_plain(c),
{
    c != '"' && c != '\\'
}

fn skip_ws_at(s: &str, n: usize, i: usize) -> (r: usize)
    requires
        n == s@.len(),
        i <= n,
    ensures
        r == skip_ws(s@, i as int),
        i <= r <= n,
{
    let mut j = i;
    while j < n && is_ws_exec(s.get_char(j))
        invariant
            n == s@.len(),
            i <= j <= n,
            skip_ws(s@, i as int) == skip_ws(s@, j as int),
        decreases n - j,
    {
        j += 1;
    }
    j
}

fn parse_num_at(s: &str, n: usize, i: usize) -> (r: Option<(u32, usize)>)
    requires
        n == s@.len(),
        i <= n,
    ensures
        match r {
            Some(p) => parse_num(s@, i as int) == Some((p.0, p.1 as int)) && i < p.1 <= n,
            None => parse_num(s@, i as int) is None,
        },
{
    if i == n || !crate::num::is_digit_exec(s.get_char(i)) {
        return None;
    }
    let mut j = i;
    let mut acc: u64 = 0;
    let mut too_big = false;
    while j < n && crate::num::is_digit_exec(s.get_char(j))
        invariant
            n == s@.len(),
            i <= j <= n,
            digits_end(s@, i as int) == digits_end(s@, j as int),
            forall|t: int| i <= t < j ==> is_digit(#[trigger] s@[t]),
            !too_big ==> acc == num_val(s@.subrange(i as int, j as int)) && acc <= u32::MAX,
            too_big ==> num_val(s@.subrange(i as int, j as int)) > u32::MAX,
        decreases n - j,
    {
        let c = s.get_char(j);
        let d = crate::num::digit_val_exec(c);
        proof {
            assert(s@.subrange(i as int, j as int + 1).drop_last() =~= s@.subrange(
                i as int,
                j as int,
            ));
            assert(s@.subrange(i as int, j as int + 1).last() == s@[j as int]);
        }
        if !too_big {
            acc = acc * 10 + d as u64;
            if acc > 0xffff_ffffu64 {
                too_big = true;
            }
        } else {
            proof {
                let pre = num_val(s@.subrange(i as int, j as int));
                assert(num_val(s@.subrange(i as int, j as int + 1)) == pre * 10 + digit_val(
                    s@[j as int],
                ));
            }
        }
        j += 1;
    }
    proof {
        assert(digits_end(s@, j as int) == j as int);
        lemma_digits_end_le(s@, i as int + 1);
    }
    if s.get_char(i) == '0' && j > i + 1 {
        return None;
    }
    if too_big {
        return None;
    }
    Some((acc as u32, j))
}

fn parse_string_at(s: &str, n: usize, i: usize) -> (r: Option<(String, usize)>)
    requires
        n == s@.len(),
        i <= n,
    ensures
        match r {
            Some(p) => parse_string(s@, i as int) == Some((p.0@, p.1 as int)) && i < p.1 <= n,
            None => parse_string(s@, i as int) is None,
        },
{
    if i == n || s.get_char(i) != '"' {
        return None;
    }
    let mut j = i + 1;
    while j < n && is_plain_exec(s.get_char(j))
        invariant
            n == s@.len(),
            i + 1 <= j <= n,
            plain_end(s@, i as int + 1) == plain_end(s@, j as int),
        decreases n - j,
    {
        j += 1;
    }
    proof {
        assert(plain_end(s@, j as int) == j as int);
    }
    if j < n && s.get_char(j) == '"' {
        let k = s.substring_char(i + 1, j);
        Some((String::from_str(k), j + 1))
    } else {
        None
    }
}

fn parse_array_at(s: &str, n: usize, i: usize) -> (r: Option<(Vec<u32>, usize)>)
    requires
        n == s@.len(),
        i <= n,
    ensures
        match r {
            Some(p) => parse_array(s@, i as int) == Some((p.0@, p.1 as int)) && i < p.1 <= n,
            None => parse_array(s@, i as int) is None,
        },
{
    if i == n || s.get_char(i) != '[' {
        return None;
    }
    let j = skip_ws_at(s, n, i + 1);
    if j < n && s.get_char(j) == ']' {
        let out: Vec<u32> = Vec::new();
        proof {
            assert(out@ =~= Seq::<u32>::empty());
        }
        return Some((out, j + 1));
    }
    let (v0, p0) = match parse_num_at(s, n, j) {
        None => {
            return None;
        },
        Some(x) => x,
    };
    let mut acc: Vec<u32> = Vec::new();
    acc.push(v0);
    proof {
        assert(acc@ =~= seq![v0]);
    }
    let mut cur = p0;
    loop
        invariant
            n == s@.len(),
            i < cur <= n,
            parse_array(s@, i as int) == parse_array_rest(s@, cur as int, acc@),
        decreases n - cur,
    {
        let j2 = skip_ws_at(s, n, cur);
        if j2 < n && s.get_char(j2) == ']' {
            return Some((acc, j2 + 1));
        } else if j2 < n && s.get_char(j2) == ',' {
            let k2 = skip_ws_at(s, n, j2 + 1);
            match parse_num_at(s, n, k2) {
                None => {
                    return None;
                },
                Some((v, e)) => {
                    acc.push(v);
                    cur = e;
                },
            }
        } else {
            return None;
        }
    }
}

fn parse_pair_at(s: &str, n: usize, i: usize) -> (r: Option<(String, Vec<u32>, usize)>)
    requires
        n == s@.len(),
        i <= n,
    ensures
        match r {
            Some(p) => parse_pair(s@, i as int) == Some(((p.0@, p.1@), p.2 as int)) && i < p.2 <= n
                && date_key(p.0@),
            None => parse_pair(s@, i as int) is None,
        },
{
    let (k, p) = match parse_string_at(s, n, i) {
        None => {
            return None;
        },
        Some(x) => x,
    };
    if !crate::store::is_date_key(k.as_str()) {
        return None;
    }
    let q = skip_ws_at(s, n, p);
    if q < n && s.get_char(q) == ':' {
        let a = skip_ws_at(s, n, q + 1);
        match parse_array_at(s, n, a) {
            None => None,
            Some((vs, e)) => Some((k, vs, e)),
        }
    } else {
        None
    }
}

/// Reads a data document. Accepts exactly the documents whose text describes
/// a well-formed mapping — each key a date key, no key repeated, each entry
/// a number a `u32` can hold — and gives back that mapping.
pub fn parse_data(s: &str) -> (r: Result<Data, StorageError>)
    ensures
        match r {
            Ok(d) => d.wf() && spec_parse_data(s@) == Some(d@),
            Err(e) => spec_parse_data(s@) is None && e == StorageError::MalformedDocument,
        },
{
    let n = s.unicode_len();
    let i = skip_ws_at(s, n, 0);
    if i == n || s.get_char(i) != '{' {
        return Err(StorageError::MalformedDocument);
    }
    let j = skip_ws_at(s, n, i + 1);
    if j < n && s.get_char(j) == '}' {
        let t = skip_ws_at(s, n, j + 1);
        if t == n {
            let d = Data::new();
            return Ok(d);
        } else {
            return Err(StorageError::MalformedDocument);
        }
    }
    let (k0, v0, e0) = match parse_pair_at(s, n, j) {
        None => {
            return Err(StorageError::MalformedDocument);
        },
        Some(x) => x,
    };
    let mut d = Data::new();
    d.set_calories_by_date(k0.as_str(), v0);
    proof {
        assert(d@ =~= seq![(k0@, v0@)]);
    }
    let mut cur = e0;
    loop
        invariant
            n == s@.len(),
            cur <= n,
            d.wf(),
            parse_object(s@, skip_ws(s@, 0)) == parse_members_rest(s@, cur as int, d@),
        decreases n - cur,
    {
        let j2 = skip_ws_at(s, n, cur);
        if j2 < n && s.get_char(j2) == '}' {
            let t = skip_ws_at(s, n, j2 + 1);
            if t == n {
                return Ok(d);
            } else {
                return Err(StorageError::MalformedDocument);
            }
        } else if j2 < n && s.get_char(j2) == ',' {
            let k2 = skip_ws_at(s, n, j2 + 1);
            match parse_pair_at(s, n, k2) {
                None => {
                    return Err(StorageError::MalformedDocument);
                },
                Some((k, vs, e)) => {
                    if d.get_calories_by_date(k.as_str()).is_some() {
                        return Err(StorageError::MalformedDocument);
                    }
                    let ghost dpre = d@;
                    d.set_calories_by_date(k.as_str(), vs);
                    proof {
                        assert(d@ =~= dpre.push((k@, vs@)));
                    }
                    cur = e;
                },
            }
        } else {
            return Err(StorageError::MalformedDocument);
        }
    }
}

// ----- the round trip -----
proof fn lemma_piece(s: Seq<char>, i: int, r: Seq<char>, a: int, b: int)
    requires
        0 <= i,
        i + r.len() <= s.len(),
        s.subrange(i, i + r.len()) == r,
        0 <= a <= b <= r.len(),
    ensures
        s.subrange(i + a, i + b) == r.subrange(a, b),
{
    assert forall|t: int| 0 <= t < b - a implies s.subrange(i + a, i + b)[t] == r.subrange(
        a,
        b,
    )[t] by {
        assert(s.subrange(i, i + r.len())[a + t] == r[a + t]);
    }
    assert(s.subrange(i + a, i + b) =~= r.subrange(a, b));
}

proof fn lemma_piece_char(s: Seq<char>, i: int, r: Seq<char>, a: int)
    requires
        0 <= i,
        i + r.len() <= s.len(),
        s.subrange(i, i + r.len()) == r,
        0 <= a < r.len(),
    ensures
        s[i + a] == r[a],
{
    assert(s.subrange(i, i + r.len())[a] == r[a]);
}

proof fn lemma_skip_ws_run(s: Seq<char>, i: int, j: int)
    requires
        0 <= i <= j <= s.len(),
        forall|t: int| i <= t < j ==> is_ws(#[trigger] s[t]),
        j == s.len() || !is_ws(s[j]),
    ensures
        skip_ws(s, i) == j,
    decreases j - i,
{
    if i < j {
        lemma_skip_ws_run(s, i + 1, j);
    }
}

proof fn lemma_digits_end_run(s: Seq<char>, i: int, j: int)
    requires
        0 <= i <= j <= s.len(),
        forall|t: int| i <= t < j ==> is_digit(#[trigger] s[t]),
        j == s.len() || !is_digit(s[j]),
    ensures
        digits_end(s, i) == j,
    decreases j - i,
{
    if i < j {
        lemma_digits_end_run(s, i + 1, j);
    }
}

proof fn lemma_plain_end_run(s: Seq<char>, i: int, j: int)
    requires
        0 <= i <= j <= s.len(),
        forall|t: int| i <= t < j ==> is_plain(#[trigger] s[t]),
        j == s.len() || !is_plain(s[j]),
    ensures
        plain_end(s, i) == j,
    decreases j - i,
{
    if i < j {
        lemma_plain_end_run(s, i + 1, j);
    }
}

proof fn lemma_parse_num_rendered(s: Seq<char>, i: int, v: u32)
    requires
        0 <= i,
        i + dec_of(v as nat).len() <= s.len(),
        s.subrange(i, i + dec_of(v as nat).len()) == dec_of(v as nat),
        i + dec_of(v as nat).len() == s.len() || !is_digit(s[i + dec_of(v as nat).len()]),
    ensures
        parse_num(s, i) == Some((v, i + dec_of(v as nat).len())),
{
    lemma_dec_of(v as nat);
    let d = dec_of(v as nat);
    let l = d.len() as int;
    assert forall|t: int| i <= t < i + l implies is_digit(#[trigger] s[t]) by {
        lemma_piece_char(s, i, d, t - i);
    }
    lemma_piece_char(s, i, d, 0);
    assert(s[i] == d[0]);
    lemma_digits_end_run(s, i, i + l);
    if s[i] == '0' {
        assert(l == 1);
    }
    assert(num_val(s.subrange(i, i + l)) == v as nat);
}

proof fn lemma_parse_string_rendered(s: Seq<char>, i: int, k: Seq<char>)
    requires
        0 <= i,
        date_key(k),
        i + k.len() + 2 <= s.len(),
        s.subrange(i, i + k.len() + 2) == seq!['"'] + k + seq!['"'],
    ensures
        parse_string(s, i) == Some((k, i + k.len() + 2)),
{
    let body = seq!['"'] + k + seq!['"'];
    let kl = k.len() as int;
    lemma_piece_char(s, i, body, 0);
    assert(s[i] == '"');
    assert forall|t: int| i + 1 <= t < i + 1 + kl implies is_plain(#[trigger] s[t]) by {
        lemma_piece_char(s, i, body, t - i);
        assert(s[t] == k[t - i - 1]);
        assert(is_digit(k[t - i - 1]) || k[t - i - 1] == '-');
    }
    lemma_piece_char(s, i, body, kl + 1);
    assert(s[i + kl + 1] == '"');
    lemma_plain_end_run(s, i + 1, i + 1 + kl);
    lemma_piece(s, i, body, 1, kl + 1);
    assert(body.subrange(1, kl + 1) =~= k);
}

proof fn lemma_parse_array_rest_rendered(s: Seq<char>, i: int, acc: Seq<u32>, ws: Seq<u32>)
    requires
        0 <= i,
        i + items_tail(ws).len() + 4 <= s.len(),
        s.subrange(i, i + items_tail(ws).len() + 4) == items_tail(ws) + seq!['\n', ' ', ' ', ']'],
    ensures
        parse_array_rest(s, i, acc) == Some((acc + ws, i + items_tail(ws).len() + 4)),
    decreases ws.len(),
{
    let close = seq!['\n', ' ', ' ', ']'];
    let full = items_tail(ws) + close;
    if ws.len() == 0 {
        assert(full =~= close);
        lemma_piece_char(s, i, full, 0);
        lemma_piece_char(s, i, full, 1);
        lemma_piece_char(s, i, full, 2);
        lemma_piece_char(s, i, full, 3);
        lemma_skip_ws_run(s, i, i + 3);
        assert(parse_array_rest(s, i, acc) == Some((acc, i + 4)));
        assert(acc + ws =~= acc);
    } else {
        let v0 = ws[0];
        let d = dec_of(v0 as nat);
        let dl = d.len() as int;
        let tail = items_tail(ws.drop_first());
        assert(items_tail(ws) == seq![',', '\n'] + item_of(v0) + tail);
        assert(full =~= seq![',', '\n', ' ', ' ', ' ', ' '] + d + (tail + close));
        let head = seq![',', '\n', ' ', ' ', ' ', ' '];
        lemma_piece_char(s, i, full, 0);
        assert(s[i] == ',');
        assert(skip_ws(s, i) == i);
        assert forall|t: int| i + 1 <= t < i + 6 implies is_ws(#[trigger] s[t]) by {
            lemma_piece_char(s, i, full, t - i);
            assert(s[t] == head[t - i]);
        }
        lemma_dec_of(v0 as nat);
        lemma_piece_char(s, i, full, 6);
        assert(s[i + 6] == d[0]);
        assert(is_digit(s[i + 6]));
        lemma_skip_ws_run(s, i + 1, i + 6);
        lemma_piece(s, i, full, 6, 6 + dl);
        assert(full.subrange(6, 6 + dl) =~= d);
        let p = i + 6 + dl;
        lemma_piece_char(s, i, full, 6 + dl);
        assert(s[p] == (tail + close)[0]);
        if ws.len() == 1 {
            assert(tail =~= Seq::<char>::empty());
            assert(s[p] == '\n');
        } else {
            assert(tail == seq![',', '\n'] + item_of(ws.drop_first()[0]) + items_tail(
                ws.drop_first().drop_first(),
            ));
            assert(s[p] == ',');
        }
        assert(!is_digit(s[p]));
        lemma_parse_num_rendered(s, i + 6, v0);
        assert(parse_num(s, skip_ws(s, i + 1)) == Some((v0, p)));
        lemma_piece(s, i, full, 6 + dl, full.len() as int);
        assert(full.subrange(6 + dl, full.len() as int) =~= tail + close);
        lemma_parse_array_rest_rendered(s, p, acc.push(v0), ws.drop_first());
        assert(acc.push(v0) + ws.drop_first() =~= acc + ws);
        assert(parse_array_rest(s, i, acc) == parse_array_rest(s, p, acc.push(v0)));
    }
}

proof fn lemma_parse_array_rendered(s: Seq<char>, i: int, vs: Seq<u32>)
    requires
        0 <= i,
        i + array_of(vs).len() <= s.len(),
        s.subrange(i, i + array_of(vs).len()) == array_of(vs),
    ensures
        parse_array(s, i) == Some((vs, i + array_of(vs).len())),
{
    let full = array_of(vs);
    lemma_piece_char(s, i, full, 0);
    assert(s[i] == '[');
    if vs.len() == 0 {
        lemma_piece_char(s, i, full, 1);
        assert(s[i + 1] == ']');
        assert(skip_ws(s, i + 1) == i + 1);
        assert(parse_array(s, i) == Some((Seq::<u32>::empty(), i + 2)));
        assert(vs =~= Seq::<u32>::empty());
    } else {
        let v0 = vs[0];
        let d = dec_of(v0 as nat);
        let dl = d.len() as int;
        let tail = items_tail(vs.drop_first());
        let close = seq!['\n', ' ', ' ', ']'];
        assert(full =~= seq!['[', '\n', ' ', ' ', ' ', ' '] + d + (tail + close));
        let head = seq!['[', '\n', ' ', ' ', ' ', ' '];
        assert forall|t: int| i + 1 <= t < i + 6 implies is_ws(#[trigger] s[t]) by {
            lemma_piece_char(s, i, full, t - i);
            assert(s[t] == head[t - i]);
        }
        lemma_dec_of(v0 as nat);
        lemma_piece_char(s, i, full, 6);
        assert(s[i + 6] == d[0]);
        assert(is_digit(s[i + 6]));
        lemma_skip_ws_run(s, i + 1, i + 6);
        assert(s[i + 6] != ']');
        lemma_piece(s, i, full, 6, 6 + dl);
        assert(full.subrange(6, 6 + dl) =~= d);
        let p = i + 6 + dl;
        lemma_piece_char(s, i, full, 6 + dl);
        assert(s[p] == (tail + close)[0]);
        if vs.len() == 1 {
            assert(tail =~= Seq::<char>::empty());
            assert(s[p] == '\n');
        } else {
            assert(tail == seq![',', '\n'] + item_of(vs.drop_first()[0]) + items_tail(
                vs.drop_first().drop_first(),
            ));
            assert(s[p] == ',');
        }
        assert(!is_digit(s[p]));
        lemma_parse_num_rendered(s, i + 6, v0);
        lemma_piece(s, i, full, 6 + dl, full.len() as int);
        assert(full.subrange(6 + dl, full.len() as int) =~= tail + close);
        lemma_parse_array_rest_rendered(s, p, seq![v0], vs.drop_first());
        assert(seq![v0] + vs.drop_first() =~= vs);
    }
}

proof fn lemma_parse_pair_rendered(s: Seq<char>, i: int, p: (Seq<char>, Seq<u32>))
    requires
        0 <= i,
        date_key(p.0),
        i + pair_of(p).len() - 2 <= s.len(),
        s.subrange(i, i + pair_of(p).len() - 2) == pair_of(p).subrange(2, pair_of(p).len() as int),
    ensures
        parse_pair(s, i) == Some((p, i + pair_of(p).len() - 2)),
{
    let k = p.0;
    let kl = k.len() as int;
    let arr = array_of(p.1);
    let body = pair_of(p).subrange(2, pair_of(p).len() as int);
    assert(body =~= seq!['"'] + k + seq!['"', ':', ' '] + arr);
    lemma_piece(s, i, body, 0, kl + 2);
    assert(body.subrange(0, kl + 2) =~= seq!['"'] + k + seq!['"']);
    lemma_parse_string_rendered(s, i, k);
    let q = i + kl + 2;
    lemma_piece_char(s, i, body, kl + 2);
    assert(s[q] == ':');
    assert(skip_ws(s, q) == q);
    lemma_piece_char(s, i, body, kl + 3);
    assert(s[q + 1] == ' ');
    lemma_piece_char(s, i, body, kl + 4);
    assert(s[q + 2] == '[');
    lemma_skip_ws_run(s, q + 1, q + 2);
    lemma_piece(s, i, body, kl + 4, body.len() as int);
    assert(body.subrange(kl + 4, body.len() as int) =~= arr);
    lemma_parse_array_rendered(s, q + 2, p.1);
}

#[verifier::rlimit(60)]
proof fn lemma_parse_members_rest_rendered(s: Seq<char>, i: int, acc: Kv, rest: Kv)
    requires
        0 <= i,
        wf_kv(acc + rest),
        i + pairs_tail(rest).len() + 2 <= s.len(),
        s.subrange(i, i + pairs_tail(rest).len() + 2) == pairs_tail(rest) + seq!['\n', '}'],
    ensures
        parse_members_rest(s, i, acc) == Some((acc + rest, i + pairs_tail(rest).len() + 2)),
    decreases rest.len(),
{
    let close = seq!['\n', '}'];
    let full = pairs_tail(rest) + close;
    if rest.len() == 0 {
        assert(full =~= close);
        lemma_piece_char(s, i, full, 0);
        lemma_piece_char(s, i, full, 1);
        lemma_skip_ws_run(s, i, i + 1);
        assert(parse_members_rest(s, i, acc) == Some((acc, i + 2)));
        assert(acc + rest =~= acc);
    } else {
        let p0 = rest[0];
        let ptext = pair_of(p0);
        let pl = ptext.len() as int;
        let tail = pairs_tail(rest.drop_first());
        assert(pairs_tail(rest) == seq![',', '\n'] + ptext + tail);
        assert(full =~= seq![',', '\n'] + ptext + (tail + close));
        lemma_piece_char(s, i, full, 0);
        assert(s[i] == ',');
        assert(skip_ws(s, i) == i);
        lemma_piece_char(s, i, full, 1);
        lemma_piece_char(s, i, full, 2);
        lemma_piece_char(s, i, full, 3);
        assert(s[i + 1] == '\n' && s[i + 2] == ' ' && s[i + 3] == ' ');
        lemma_piece_char(s, i, full, 4);
        let ghost ap = seq![',', '\n'] + ptext;
        assert(full == ap + (tail + close));
        assert(ptext[2] == '"');
        assert(ap[4] == ptext[2]);
        assert(full[4] == ap[4]);
        assert(s[i + 4] == '"');
        lemma_skip_ws_run(s, i + 1, i + 4);
        assert((acc + rest)[acc.len() as int] == p0);
        assert(date_key((acc + rest)[acc.len() as int].0));
        assert(date_key(p0.0));
        lemma_piece(s, i, full, 4, 2 + pl);
        assert(full.subrange(4, 2 + pl) =~= ptext.subrange(2, pl));
        lemma_parse_pair_rendered(s, i + 4, p0);
        let e = i + 2 + pl;
        assert(parse_pair(s, skip_ws(s, i + 1)) == Some((p0, e)));
        assert(!kv_has(acc, p0.0)) by {
            if kv_has(acc, p0.0) {
                let a = crate::store::kv_index_of(acc, p0.0);
                assert((acc + rest)[a].0 == p0.0);
                assert((acc + rest)[acc.len() as int].0 == p0.0);
            }
        }
        lemma_piece(s, i, full, 2 + pl, full.len() as int);
        assert(full.subrange(2 + pl, full.len() as int) =~= tail + close);
        assert(acc.push(p0) + rest.drop_first() =~= acc + rest);
        lemma_parse_members_rest_rendered(s, e, acc.push(p0), rest.drop_first());
        assert(parse_members_rest(s, i, acc) == parse_members_rest(s, e, acc.push(p0)));
    }
}

#[verifier::rlimit(100)]
proof fn lemma_parse_object_rendered(kv: Kv)
    requires
        wf_kv(kv),
        kv.len() > 0,
    ensures
        json_of(kv)[0] == '{',
        parse_object(json_of(kv), 0) == Some((kv, json_of(kv).len() as int)),
{
    let s = json_of(kv);
    let p0 = kv[0];
    let ptext = pair_of(p0);
    let pl = ptext.len() as int;
    let tail = pairs_tail(kv.drop_first());
    let close = seq!['\n', '}'];
    assert(s =~= seq!['{', '\n'] + ptext + (tail + close));
    let full = s;
    assert(s.subrange(0, s.len() as int) =~= s);
    lemma_piece_char(s, 0, full, 0);
    assert(s[0] == '{');
    lemma_piece_char(s, 0, full, 1);
    lemma_piece_char(s, 0, full, 2);
    lemma_piece_char(s, 0, full, 3);
    assert(s[1] == '\n' && s[2] == ' ' && s[3] == ' ');
    lemma_piece_char(s, 0, full, 4);
    let ghost ap = seq!['{', '\n'] + ptext;
    assert(full == ap + (tail + close));
    assert(ptext[2] == '"');
    assert(ap[4] == ptext[2]);
    assert(full[4] == ap[4]);
    assert(s[4] == '"');
    lemma_skip_ws_run(s, 1, 4);
    assert(date_key(kv[0].0));
    assert(date_key(p0.0));
    lemma_piece(s, 0, full, 4, 2 + pl);
    assert(full.subrange(4, 2 + pl) =~= ptext.subrange(2, pl));
    lemma_parse_pair_rendered(s, 4, p0);
    let e = 2 + pl;
    assert(parse_pair(s, skip_ws(s, 1)) == Some((p0, e)));
    assert(s[4] != '}');
    lemma_piece(s, 0, full, 2 + pl, full.len() as int);
    assert(full.subrange(2 + pl, full.len() as int) =~= tail + close);
    assert(seq![p0] + kv.drop_first() =~= kv);
    lemma_parse_members_rest_rendered(s, e, seq![p0], kv.drop_first());
    assert(parse_members_rest(s, e, seq![p0]) == Some((kv, s.len() as int)));
}

/// The round trip of persistence: rendering a well-formed mapping and
/// parsing the rendered text gives the same mapping back — saving and then
/// loading reproduces every date key and every entry, in order.
pub proof fn lemma_render_parse_round_trip(kv: Kv)
    requires
        wf_kv(kv),
    ensures
        spec_parse_data(json_of(kv)) == Some(kv),
{
    let s = json_of(kv);
    if kv.len() == 0 {
        assert(s == seq!['{', '}']);
        assert(!is_ws('{'));
        assert(skip_ws(s, 0) == 0);
        assert(skip_ws(s, 1) == 1);
        assert(parse_object(s, 0) == Some((Seq::<(Seq<char>, Seq<u32>)>::empty(), 2int)));
        assert(skip_ws(s, 2) == 2);
        assert(kv =~= Seq::<(Seq<char>, Seq<u32>)>::empty());
    } else {
        lemma_parse_object_rendered(kv);
        assert(!is_ws(s[0]));
        assert(skip_ws(s, 0) == 0);
        assert(skip_ws(s, s.len() as int) == s.len());
    }
}

} // verus!

