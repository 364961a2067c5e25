//! Decoding of the stored forbidden-character aggregate.
//!
//! A reader obtains a site's forbidden characters from the store as one
//! grouped-join aggregate: a JSON array whose elements are strings, except
//! that a login with no forbidden characters comes back as a single `null`
//! placeholder (the left join matched nothing). The decoder parses that
//! array and normalizes it by dropping the null placeholders, so a
//! placeholder-only aggregate becomes the empty sequence rather than a
//! one-element sequence.
//!
//! The grammar accepted is: optional whitespace around the tokens, `[`,
//! a comma-separated list of elements (possibly none), `]`; an element is
//! `null` or a double-quoted string whose characters are either unescaped
//! (anything but `"` and `\` and the controls below `' '`) or one of the
//! eight short escapes `\"`, `\\`, `\/`, `\b`, `\f`, `\n`, `\r`, `\t`.
//! Numeric `\u` escapes are not accepted: an aggregate holding a bare
//! control character fails to decode rather than decoding wrongly.

use vstd::prelude::*;

use crate::outcome::PolicyError;

verus! {

/// JSON insignificant whitespace.
pub open spec fn is_ws(c: char) -> bool {
    c == ' ' || c == '\t' || c == '\n' || c == '\r'
}

/// First position at or after `i` that holds no whitespace.
pub open spec fn skip_ws(s: Seq<char>, i: int) -> int
    decreases s.len() - i,
{
    if 0 <= i < s.len() && is_ws(s[i]) {
        skip_ws(s, i + 1)
    } else {
        i
    }
}

proof fn lemma_skip_ws_bounds(s: Seq<char>, i: int)
    requires
        0 <= i <= s.len(),
    ensures
        i <= skip_ws(s, i) <= s.len(),
    decreases s.len() - i,
{
    if i < s.len() && is_ws(s[i]) {
        lemma_skip_ws_bounds(s, i + 1);
    }
}

/// The character denoted by the short escape `\c`, if `\c` is one.
pub open spec fn unescape(c: char) -> Option<char> {
    if c == '"' {
        Some('"')
    } else if c == '\\' {
        Some('\\')
    } else if c == '/' {
        Some('/')
    } else if c == 'b' {
        Some('\u{0008}')
    } else if c == 'f' {
        Some('\u{000C}')
    } else if c == 'n' {
        Some('\n')
    } else if c == 'r' {
        Some('\r')
    } else if c == 't' {
        Some('\t')
    } else {
        None
    }
}

/// Parse the inside of a string literal from position `i` (just after the
/// opening quote) up to and over its closing quote. Yields the denoted
/// characters and the position after the closing quote.
pub open spec fn parse_string_body(s: Seq<char>, i: int) -> Option<(Seq<char>, int)>
    decreases s.len() - i,
{
    if i < 0 || i >= s.len() {
        None
    } else if s[i] == '"' {
        Some((Seq::empty(), i + 1))
    } else if s[i] == '\\' {
        if i + 1 < s.len() {
            match unescape(s[i + 1]) {
                Some(c) => match parse_string_body(s, i + 2) {
                    Some(t) => Some((seq![c] + t.0, t.1)),
                    None => None,
                },
                None => None,
            }
        } else {
            None
        }
    } else if (s[i] as u32) >= 0x20 {
        match parse_string_body(s, i + 1) {
            Some(t) => Some((seq![s[i]] + t.0, t.1)),
            None => None,
        }
    } else {
        None
    }
}

proof fn lemma_parse_string_body_bounds(s: Seq<char>, i: int)
    requires
        parse_string_body(s, i) is Some,
    ensures
        i < (parse_string_body(s, i)->Some_0).1 <= s.len(),
    decreases s.len() - i,
{
    if 0 <= i < s.len() && s[i] != '"' {
        if s[i] == '\\' {
            lemma_parse_string_body_bounds(s, i + 2);
        } else {
            lemma_parse_string_body_bounds(s, i + 1);
        }
    }
}

/// Parse one array element at position `i`: a string literal or `null`.
pub open spec fn parse_elem(s: Seq<char>, i: int) -> Option<(Option<Seq<char>>, int)> {
    if 0 <= i && i < s.len() && s[i] == '"' {
        match parse_string_body(s, i + 1) {
            Some(t) => Some((Some(t.0), t.1)),
            None => None,
        }
    } else if 0 <= i && i + 4 <= s.len() && s[i] == 'n' && s[i + 1] == 'u' && s[i + 2] == 'l'
        && s[i + 3] == 'l' {
        Some((None, i + 4))
    } else {
        None
    }
}

proof fn lemma_parse_elem_bounds(s: Seq<char>, i: int)
    requires
        parse_elem(s, i) is Some,
    ensures
        i < (parse_elem(s, i)->Some_0).1 <= s.len(),
{
    if 0 <= i && i < s.len() && s[i] == '"' {
        lemma_parse_string_body_bounds(s, i + 1);
    }
}

/// Parse the non-empty element list of an array from position `i` (at the
/// first element) up to and over the closing bracket.
pub open spec fn parse_items(s: Seq<char>, i: int) -> Option<(Seq<Option<Seq<char>>>, int)>
    decreases s.len() - i,
        when 0 <= i <= s.len()
        via parse_items_decreases
{
    match parse_elem(s, i) {
        None => None,
        Some(e) => {
            let k = skip_ws(s, e.1);
            if k < s.len() && s[k] == ',' {
                match parse_items(s, skip_ws(s, k + 1)) {
                    Some(rest) => Some((seq![e.0] + rest.0, rest.1)),
                    None => None,
                }
            } else if k < s.len() && s[k] == ']' {
                Some((seq![e.0], k + 1))
            } else {
                None
            }
        },
    }
}

#[via_fn]
proof fn parse_items_decreases(s: Seq<char>, i: int) {
    match parse_elem(s, i) {
        None => {},
        Some(e) => {
            lemma_parse_elem_bounds(s, i);
            let k = skip_ws(s, e.1);
            lemma_skip_ws_bounds(s, e.1);
            if k < s.len() && s[k] == ',' {
                lemma_skip_ws_bounds(s, k + 1);
            }
        },
    }
}

/// Parse a whole aggregate: a bracketed, comma-separated list of elements,
/// whitespace allowed around the tokens, nothing after the closing bracket.
pub open spec fn parse_aggregate(s: Seq<char>) -> Option<Seq<Option<Seq<char>>>> {
    let i = skip_ws(s, 0);
    if i < s.len() && s[i] == '[' {
        let j = skip_ws(s, i + 1);
        if j < s.len() && s[j] == ']' {
            if skip_ws(s, j + 1) == s.len() {
                Some(Seq::empty())
            } else {
                None
            }
        } else {
            match parse_items(s, j) {
                Some(items) => if skip_ws(s, items.1) == s.len() {
                    Some(items.0)
                } else {
                    None
                },
                None => None,
            }
        }
    } else {
        None
    }
}

/// Drop the null placeholders, keeping the strings in order.
pub open spec fn non_null(items: Seq<Option<Seq<char>>>) -> Seq<Seq<char>>
    decreases items.len(),
{
    if items.len() == 0 {
        Seq::empty()
    } else {
        non_null(items.drop_last()) + (match items.last() {
            Some(t) => seq![t],
            None => Seq::<Seq<char>>::empty(),
        })
    }
}

/// What decoding an aggregate yields: the denoted strings with the null
/// placeholders dropped, or nothing when the text is outside the grammar.
pub open spec fn decode_spec(s: Seq<char>) -> Option<Seq<Seq<char>>> {
    match parse_aggregate(s) {
        Some(items) => Some(non_null(items)),
        None => None,
    }
}

proof fn lemma_non_null_cons(e: Option<Seq<char>>, items: Seq<Option<Seq<char>>>)
    ensures
        non_null(seq![e] + items) == (match e {
            Some(t) => seq![t],
            None => Seq::<Seq<char>>::empty(),
        }) + non_null(items),
    decreases items.len(),
{
    if items.len() == 0 {
        assert(items =~= Seq::<Option<Seq<char>>>::empty());
        assert(non_null(items) == Seq::<Seq<char>>::empty());
        assert(seq![e] + items =~= seq![e]);
        assert((seq![e] + items).drop_last() =~= items);
        assert((seq![e] + items).last() == e);
        assert(non_null(seq![e] + items) == non_null(items) + (match e {
            Some(t) => seq![t],
            None => Seq::<Seq<char>>::empty(),
        }));
        assert(non_null(items) + (match e {
            Some(t) => seq![t],
            None => Seq::<Seq<char>>::empty(),
        }) =~= (match e {
            Some(t) => seq![t],
            None => Seq::<Seq<char>>::empty(),
        }) + non_null(items));
    } else {
        let head = (match e {
            Some(t) => seq![t],
            None => Seq::<Seq<char>>::empty(),
        });
        let tail = (match items.last() {
            Some(t) => seq![t],
            None => Seq::<Seq<char>>::empty(),
        });
        assert((seq![e] + items).drop_last() =~= seq![e] + items.drop_last());
        assert((seq![e] + items).last() == items.last());
        assert(non_null(seq![e] + items) == non_null(seq![e] + items.drop_last()) + tail);
        lemma_non_null_cons(e, items.drop_last());
        assert(non_null(items) == non_null(items.drop_last()) + tail);
        assert((head + non_null(items.drop_last())) + tail =~= head + (non_null(
            items.drop_last(),
        ) + tail));
    }
}

/// The characters of `s`, in order.
fn str_to_chars(s: &str) -> (v: Vec<char>)
    ensures
        v@ == s@,
{
    let n = s.unicode_len();
    let mut v: Vec<char> = Vec::new();
    let mut i: usize = 0;
    while i < n
        invariant
            n == s@.len(),
            i <= n,
            v@ == s@.take(i as int),
        decreases n - i,
    {
        let ghost pre = v@;
        v.push(s.get_char(i));
        proof {
            assert(v@ =~= s@.take(i + 1));
        }
        i += 1;
    }
    proof {
        assert(s@.take(n as int) =~= s@);
    }
    v
}

/// Relies on `String`'s `FromIterator` impl: collecting an iterator of
/// characters builds the string holding exactly those characters in order.
#[verifier::external_body]
fn chars_to_string(v: &Vec<char>) -> (s: String)
    ensures
        s@ == v@,
{
    v.iter().collect()
}

fn skip_ws_exec(v: &Vec<char>, i: usize) -> (j: usize)
    requires
        i <= v@.len(),
    ensures
        i <= j <= v@.len(),
        j == skip_ws(v@, i as int),
{
    let mut j = i;
    while j < v.len() && (v[j] == ' ' || v[j] == '\t' || v[j] == '\n' || v[j] == '\r')
        invariant
            i <= j <= v@.len(),
            skip_ws(v@, i as int) == skip_ws(v@, j as int),
        decreases v@.len() - j,
    {
        j += 1;
    }
    j
}

fn unescape_exec(c: char) -> (r: Option<char>)
    ensures
        r == unescape(c),
{
    if c == '"' {
        Some('"')
    } else if c == '\\' {
        Some('\\')
    } else if c == '/' {
        Some('/')
    } else if c == 'b' {
        Some('\u{0008}')
    } else if c == 'f' {
        Some('\u{000C}')
    } else if c == 'n' {
        Some('\n')
    } else if c == 'r' {
        Some('\r')
    } else if c == 't' {
        Some('\t')
    } else {
        None
    }
}

fn parse_string_body_exec(v: &Vec<char>, i: usize) -> (r: Option<(Vec<char>, usize)>)
    requires
        i <= v@.len(),
    ensures
        match r {
            Some(t) => parse_string_body(v@, i as int) == Some((t.0@, t.1 as int)) && i < t.1
                <= v@.len(),
            None => parse_string_body(v@, i as int) is None,
        },
    decreases v@.len() - i,
{
    if i >= v.len() {
        return None;
    }
    let c = v[i];
    if c == '"' {
        let w: Vec<char> = Vec::new();
        proof {
            assert(w@ =~= Seq::<char>::empty());
        }
        Some((w, i + 1))
    } else if c == '\\' {
        if i + 1 < v.len() {
            match unescape_exec(v[i + 1]) {
                Some(u) => {
                    match parse_string_body_exec(v, i + 2) {
                        Some(t) => {
                            let ghost tv = t.0@;
                            let mut w = t.0;
                            w.insert(0, u);
                            proof {
                                assert(w@ =~= seq![u] + tv);
                            }
                            Some((w, t.1))
                        },
                        None => None,
                    }
                },
                None => None,
            }
        } else {
            None
        }
    } else if (c as u32) >= 0x20 {
        match parse_string_body_exec(v, i + 1) {
            Some(t) => {
                let ghost tv = t.0@;
                let mut w = t.0;
                w.insert(0, c);
                proof {
                    assert(w@ =~= seq![c] + tv);
                }
                Some((w, t.1))
            },
            None => None,
        }
    } else {
        None
    }
}

fn parse_elem_exec(v: &Vec<char>, i: usize) -> (r: Option<(Option<Vec<char>>, usize)>)
    requires
        i <= v@.len(),
    ensures
        match r {
            Some(t) => parse_elem(v@, i as int) == Some((t.0.deep_view(), t.1 as int)) && i < t.1
                <= v@.len(),
            None => parse_elem(v@, i as int) is None,
        },
{
    if i < v.len() && v[i] == '"' {
        match parse_string_body_exec(v, i + 1) {
            Some(t) => Some((Some(t.0), t.1)),
            None => None,
        }
    } else if v.len() - i >= 4 && v[i] == 'n' && v[i + 1] == 'u' && v[i + 2] == 'l' && v[i + 3]
        == 'l' {
        Some((None, i + 4))
    } else {
        None
    }
}

#[verifier::loop_isolation(false)]
fn parse_items_exec(v: &Vec<char>, i: usize, out: &mut Vec<String>) -> (r: Option<usize>)
    requires
        i <= v@.len(),
    ensures
        match r {
            Some(end) => {
                &&& parse_items(v@, i as int) matches Some(t)
                &&& end as int == t.1
                &&& end <= v@.len()
                &&& final(out).deep_view() == old(out).deep_view() + non_null(t.0)
            },
            None => parse_items(v@, i as int) is None,
        },
    decreases v@.len() - i,
{
    match parse_elem_exec(v, i) {
        None => None,
        Some(e) => {
            let ghost edv = e.0.deep_view();
            match e.0 {
                Some(w) => {
                    let ghost pre = out.deep_view();
                    let decoded = chars_to_string(&w);
                    out.push(decoded);
                    proof {
                        assert(w.deep_view() =~= w@);
                        assert(out.deep_view() =~= pre + seq![w@]);
                    }
                },
                None => {},
            }
            let ghost mid = out.deep_view();
            proof {
                assert(mid =~= old(out).deep_view() + (match edv {
                    Some(t) => seq![t],
                    None => Seq::<Seq<char>>::empty(),
                }));
            }
            let k = skip_ws_exec(v, e.1);
            if k < v.len() && v[k] == ',' {
                let m = skip_ws_exec(v, k + 1);
                match parse_items_exec(v, m, out) {
                    Some(end) => {
                        proof {
                            let rest = (parse_items(v@, m as int)->Some_0).0;
                            lemma_non_null_cons(edv, rest);
                            assert(out.deep_view() =~= old(out).deep_view() + non_null(
                                seq![edv] + rest,
                            ));
                        }
                        Some(end)
                    },
                    None => None,
                }
            } else if k < v.len() && v[k] == ']' {
                proof {
                    assert((seq![edv]).drop_last() =~= Seq::<Option<Seq<char>>>::empty());
                    assert(non_null(Seq::<Option<Seq<char>>>::empty())
                        == Seq::<Seq<char>>::empty());
                    assert(non_null(seq![edv]) =~= (match edv {
                        Some(t) => seq![t],
                        None => Seq::<Seq<char>>::empty(),
                    }));
                    assert(out.deep_view() =~= old(out).deep_view() + non_null(seq![edv]));
                }
                Some(k + 1)
            } else {
                None
            }
        },
    }
}

/// Decode a stored forbidden-character aggregate into the forbidden
/// characters it denotes, in order, with the null placeholders of the
/// grouped join dropped. Text outside the grammar yields the decode error.
pub fn decode_aggregate(s: &str) -> (r: Result<Vec<String>, PolicyError>)
    ensures
        match r {
            Ok(v) => decode_spec(s@) == Some(v.deep_view()),
            Err(e) => decode_spec(s@) is None && e == PolicyError::Decode,
        },
{
    let v = str_to_chars(s);
    let i = skip_ws_exec(&v, 0);
    if !(i < v.len()) {
        return Err(PolicyError::Decode);
    }
    if !(v[i] == '[') {
        return Err(PolicyError::Decode);
    }
    let j = skip_ws_exec(&v, i + 1);
    if j < v.len() && v[j] == ']' {
        let t = skip_ws_exec(&v, j + 1);
        if t == v.len() {
            let out: Vec<String> = Vec::new();
            proof {
                assert(out.deep_view() =~= Seq::<Seq<char>>::empty());
                assert(non_null(Seq::<Option<Seq<char>>>::empty()) == Seq::<Seq<char>>::empty());
            }
            Ok(out)
        } else {
            Err(PolicyError::Decode)
        }
    } else {
        let mut out: Vec<String> = Vec::new();
        let ghost out0 = out.deep_view();
        match parse_items_exec(&v, j, &mut out) {
            Some(end) => {
                let t = skip_ws_exec(&v, end);
                if t == v.len() {
                    proof {
                        assert(out0 =~= Seq::<Seq<char>>::empty());
                        let items = (parse_items(v@, j as int)->Some_0).0;
                        assert(out.deep_view() =~= non_null(items));
                    }
                    Ok(out)
                } else {
                    Err(PolicyError::Decode)
                }
            },
            None => Err(PolicyError::Decode),
        }
    }
}

} // verus!
