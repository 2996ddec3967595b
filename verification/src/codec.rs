//! The snapshot format.
//!
//! A snapshot is a brace-delimited object of quoted strings,
//! `{"key":"value","key2":"value2"}`. Inside a quoted string the characters
//! `"` and `\` are escaped with a backslash; every other character stands for
//! itself. Encoding is a function of the entry sequence alone, and decoding
//! is specified by a recursive parser of the same grammar, so the round trip
//! can be stated and proved exactly.

use vstd::prelude::*;

verus! {

/// One snapshot entry at the specification level: the key's characters and
/// the value's characters.
pub type SpecEntry = (Seq<char>, Seq<char>);

/// The characters a single character contributes to a quoted string body.
pub open spec fn esc_char(c: char) -> Seq<char> {
    if c == '"' || c == '\\' {
        seq!['\\', c]
    } else {
        seq![c]
    }
}

/// A string body, escaped character by character.
pub open spec fn spec_escape(s: Seq<char>) -> Seq<char>
    decreases s.len(),
{
    if s.len() == 0 {
        Seq::empty()
    } else {
        esc_char(s[0]) + spec_escape(s.drop_first())
    }
}

/// A quoted string: the escaped body between two quote characters.
pub open spec fn spec_quote(s: Seq<char>) -> Seq<char> {
    seq!['"'] + spec_escape(s) + seq!['"']
}

/// One `"key":"value"` pair.
pub open spec fn spec_encode_entry(e: SpecEntry) -> Seq<char> {
    spec_quote(e.0) + seq![':'] + spec_quote(e.1)
}

/// A comma-separated run of entries.
pub open spec fn spec_encode_entries(es: Seq<SpecEntry>) -> Seq<char>
    decreases es.len(),
{
    if es.len() == 0 {
        Seq::empty()
    } else if es.len() == 1 {
        spec_encode_entry(es[0])
    } else {
        spec_encode_entry(es[0]) + seq![','] + spec_encode_entries(es.drop_first())
    }
}

/// A whole snapshot: the entries between braces.
pub open spec fn spec_encode(es: Seq<SpecEntry>) -> Seq<char> {
    seq!['{'] + spec_encode_entries(es) + seq!['}']
}

/// Relies on `String::push`: appends exactly the one character.
#[verifier::external_body]
fn push_char(s: &mut String, c: char)
    ensures
        final(s)@ == old(s)@.push(c),
{
    s.push(c);
}

/// Appends the escaped body of `body` to `out`.
fn write_escaped(out: &mut String, body: &str)
    ensures
        final(out)@ == old(out)@ + spec_escape(body@),
{
    let n = body.unicode_len();
    let mut i: usize = 0;
    while i < n
        invariant
            n == body@.len(),
            i <= n,
            out@ == old(out)@ + spec_escape(body@.take(i as int)),
        decreases n - i,
    {
        let c = body.get_char(i);
        if c == '"' || c == '\\' {
            push_char(out, '\\');
        }
        push_char(out, c);
        proof {
            lemma_spec_escape_snoc(body@, i as int);
            assert(body@.take(i + 1).drop_last() =~= body@.take(i as int));
            assert(out@ =~= old(out)@ + spec_escape(body@.take(i + 1)));
        }
        i = i + 1;
    }
    proof {
        assert(body@.take(n as int) =~= body@);
    }
}

/// Appends `"`, the escaped body, `"` to `out`.
fn write_quoted(out: &mut String, body: &str)
    ensures
        final(out)@ == old(out)@ + spec_quote(body@),
{
    push_char(out, '"');
    write_escaped(out, body);
    push_char(out, '"');
    proof {
        assert(out@ =~= old(out)@ + (seq!['"'] + spec_escape(body@) + seq!['"']));
    }
}

/// The pairs a vector of owned entries stands for.
pub open spec fn view_of_entries(es: Seq<(String, String)>) -> Seq<SpecEntry> {
    es.map_values(|p: (String, String)| (p.0@, p.1@))
}

/// Renders the snapshot of `entries`, in their order.
pub fn encode(entries: &Vec<(String, String)>) -> (r: String)
    ensures
        r@ == spec_encode(view_of_entries(entries@)),
{
    let ghost ev = view_of_entries(entries@);
    let mut out = String::new();
    push_char(&mut out, '{');
    let mut i: usize = 0;
    while i < entries.len()
        invariant
            i <= entries@.len(),
            ev == view_of_entries(entries@),
            ev.len() == entries@.len(),
            out@ == seq!['{'] + spec_encode_entries(ev.take(i as int)),
        decreases entries@.len() - i,
    {
        if i > 0 {
            push_char(&mut out, ',');
        }
        write_quoted(&mut out, entries[i].0.as_str());
        push_char(&mut out, ':');
        write_quoted(&mut out, entries[i].1.as_str());
        proof {
            lemma_encode_entries_snoc(ev, i as int);
            assert(ev[i as int] == (entries@[i as int].0@, entries@[i as int].1@));
            assert(spec_encode_entry(ev[i as int]) ==
                spec_quote(entries@[i as int].0@) + seq![':'] + spec_quote(entries@[i as int].1@));
            if i == 0 {
                assert(out@ =~= seq!['{'] + spec_encode_entries(ev.take(1)));
            } else {
                assert(out@ =~= seq!['{'] + (spec_encode_entries(ev.take(i as int)) + seq![',']
                    + spec_encode_entry(ev[i as int])));
            }
        }
        i = i + 1;
    }
    push_char(&mut out, '}');
    proof {
        assert(ev.take(ev.len() as int) =~= ev);
        assert(out@ =~= seq!['{'] + spec_encode_entries(ev) + seq!['}']);
    }
    out
}

/// Encoding one more entry appends a separator (after the first entry) and
/// that entry's own encoding.
proof fn lemma_encode_entries_snoc(es: Seq<SpecEntry>, i: int)
    requires
        0 <= i < es.len(),
    ensures
        i == 0 ==> spec_encode_entries(es.take(1)) == spec_encode_entry(es[0]),
        i > 0 ==> spec_encode_entries(es.take(i + 1)) == spec_encode_entries(es.take(i))
            + seq![','] + spec_encode_entry(es[i]),
    decreases i,
{
    if i == 0 {
        assert(es.take(1).len() == 1);
        assert(es.take(1)[0] == es[0]);
    } else if i == 1 {
        assert(es.take(2).len() == 2);
        assert(es.take(2)[0] == es[0]);
        assert(es.take(2).drop_first() =~= es.drop_first().take(1));
        lemma_encode_entries_snoc(es.drop_first(), 0);
        assert(es.drop_first().take(1)[0] == es[1]);
        assert(es.drop_first()[0] == es[1]);
        assert(spec_encode_entries(es.take(2))
            == spec_encode_entry(es[0]) + seq![','] + spec_encode_entry(es[1]));
        assert(es.take(1).len() == 1);
        assert(es.take(1)[0] == es[0]);
        assert(spec_encode_entries(es.take(1)) == spec_encode_entry(es[0]));
    } else {
        lemma_encode_entries_snoc(es.drop_first(), i - 1);
        assert(es.take(i + 1).len() == i + 1);
        assert(es.take(i + 1)[0] == es[0]);
        assert(es.take(i + 1).drop_first() =~= es.drop_first().take(i));
        assert(es.take(i).len() == i);
        assert(es.take(i)[0] == es[0]);
        assert(es.take(i).drop_first() =~= es.drop_first().take(i - 1));
        assert(es.drop_first()[i - 1] == es[i]);
        assert(spec_encode_entries(es.take(i + 1)) == spec_encode_entry(es[0]) + seq![',']
            + spec_encode_entries(es.drop_first().take(i)));
        assert(spec_encode_entries(es.take(i)) == spec_encode_entry(es[0]) + seq![',']
            + spec_encode_entries(es.drop_first().take(i - 1)));
        assert(spec_encode_entry(es[0]) + seq![','] + (spec_encode_entries(es.drop_first().take(i - 1))
            + seq![','] + spec_encode_entry(es[i]))
            =~= (spec_encode_entry(es[0]) + seq![','] + spec_encode_entries(es.drop_first().take(i - 1)))
            + seq![','] + spec_encode_entry(es[i]));
    }
}

/// Escaping a string is escaping all but its last character, then that
/// character's own escape.
proof fn lemma_spec_escape_snoc(s: Seq<char>, i: int)
    requires
        0 <= i < s.len(),
    ensures
        spec_escape(s.take(i + 1)) == spec_escape(s.take(i)) + esc_char(s[i]),
    decreases i,
{
    if i == 0 {
        assert(s.take(1).drop_first() =~= Seq::<char>::empty());
        assert(s.take(1)[0] == s[0]);
        assert(spec_escape(Seq::<char>::empty()) == Seq::<char>::empty());
        assert(spec_escape(s.take(1)) == esc_char(s[0]) + Seq::<char>::empty());
        assert(esc_char(s[0]) + Seq::<char>::empty() =~= esc_char(s[0]));
        assert(spec_escape(s.take(0)) == Seq::<char>::empty());
        assert(spec_escape(s.take(0)) + esc_char(s[0]) =~= esc_char(s[0]));
    } else {
        lemma_spec_escape_snoc(s.drop_first(), i - 1);
        assert(s.take(i + 1).drop_first() =~= s.drop_first().take(i));
        assert(s.take(i).drop_first() =~= s.drop_first().take(i - 1));
        assert(s.take(i + 1)[0] == s[0]);
        assert(s.take(i)[0] == s[0]);
        assert(s.drop_first()[i - 1] == s[i]);
        assert(spec_escape(s.take(i + 1)) == esc_char(s[0]) + spec_escape(s.drop_first().take(i)));
        assert(spec_escape(s.take(i)) == esc_char(s[0]) + spec_escape(s.drop_first().take(i - 1)));
        assert(esc_char(s[0]) + (spec_escape(s.drop_first().take(i - 1)) + esc_char(s[i]))
            =~= (esc_char(s[0]) + spec_escape(s.drop_first().take(i - 1))) + esc_char(s[i]));
    }
}

/// Scans a quoted string's body, the part after the opening quote. Returns
/// the unescaped content and what follows the closing quote, or nothing if
/// the input ends before an unescaped quote or holds a stray backslash.
pub open spec fn scan_body(s: Seq<char>) -> Option<(Seq<char>, Seq<char>)>
    decreases s.len(),
{
    if s.len() == 0 {
        None
    } else if s[0] == '"' {
        Some((Seq::empty(), s.drop_first()))
    } else if s[0] == '\\' {
        if s.len() >= 2 && (s[1] == '"' || s[1] == '\\') {
            match scan_body(s.skip(2)) {
                Some(p) => Some((seq![s[1]] + p.0, p.1)),
                None => None,
            }
        } else {
            None
        }
    } else {
        match scan_body(s.drop_first()) {
            Some(p) => Some((seq![s[0]] + p.0, p.1)),
            None => None,
        }
    }
}

/// Parses a quoted string from the front of `s`: an opening quote, a body,
/// a closing quote. Returns the unescaped content and the remainder.
pub open spec fn parse_quoted(s: Seq<char>) -> Option<(Seq<char>, Seq<char>)> {
    if s.len() > 0 && s[0] == '"' {
        scan_body(s.drop_first())
    } else {
        None
    }
}

/// A successful scan consumes at least the closing quote.
pub proof fn lemma_scan_body_shrinks(s: Seq<char>)
    ensures
        scan_body(s) matches Some(p) ==> p.1.len() < s.len(),
    decreases s.len(),
{
    if s.len() == 0 {
    } else if s[0] == '"' {
    } else if s[0] == '\\' {
        if s.len() >= 2 && (s[1] == '"' || s[1] == '\\') {
            lemma_scan_body_shrinks(s.skip(2));
        }
    } else {
        lemma_scan_body_shrinks(s.drop_first());
    }
}

/// A successful parse of a quoted string consumes at least both quotes.
pub proof fn lemma_parse_quoted_shrinks(s: Seq<char>)
    ensures
        parse_quoted(s) matches Some(p) ==> p.1.len() + 2 <= s.len(),
{
    if s.len() > 0 && s[0] == '"' {
        lemma_scan_body_shrinks(s.drop_first());
    }
}

/// Parses a nonempty run of `"key":"value"` pairs separated by commas and
/// closed by the final brace, which must end the input.
pub open spec fn parse_entries(s: Seq<char>) -> Option<Seq<SpecEntry>>
    decreases s.len(),
{
    match parse_quoted(s) {
        None => None,
        Some((key, r1)) => if r1.len() > 0 && r1[0] == ':' {
            match parse_quoted(r1.drop_first()) {
                None => None,
                Some((value, r2)) => if r2.len() > 0 && r2[0] == ',' {
                    proof {
                        lemma_parse_quoted_shrinks(s);
                        lemma_parse_quoted_shrinks(r1.drop_first());
                    }
                    match parse_entries(r2.drop_first()) {
                        None => None,
                        Some(rest) => Some(seq![(key, value)] + rest),
                    }
                } else if r2.len() == 1 && r2[0] == '}' {
                    Some(seq![(key, value)])
                } else {
                    None
                },
            }
        } else {
            None
        },
    }
}

/// Decodes a whole snapshot: `{}` stands for no entries; anything else must
/// be a brace-delimited, comma-separated run of quoted pairs.
pub open spec fn spec_decode(s: Seq<char>) -> Option<Seq<SpecEntry>> {
    if s.len() >= 2 && s[0] == '{' {
        if s.len() == 2 && s[1] == '}' {
            Some(Seq::empty())
        } else {
            parse_entries(s.drop_first())
        }
    } else {
        None
    }
}

/// The characters of `s`, one by one.
fn chars_of(s: &str) -> (r: Vec<char>)
    ensures
        r@ == s@,
{
    let n = s.unicode_len();
    let mut v: Vec<char> = Vec::new();
    let mut i: usize = 0;
    while i < n
        invariant
            n == s@.len(),
            i <= n,
            v@ == s@.take(i as int),
        decreases n - i,
    {
        let c = s.get_char(i);
        v.push(c);
        proof {
            assert(v@ =~= s@.take(i + 1));
        }
        i = i + 1;
    }
    proof {
        assert(s@.take(n as int) =~= s@);
    }
    v
}

/// Parses one quoted string starting at `start`; on success returns the
/// unescaped content and the position just past the closing quote.
fn parse_string(chars: &Vec<char>, start: usize) -> (r: Option<(String, usize)>)
    requires
        start <= chars@.len(),
    ensures
        (match r {
            Some(p) => start < p.1 <= chars@.len() && parse_quoted(chars@.skip(start as int))
                == Some((p.0@, chars@.skip(p.1 as int))),
            None => parse_quoted(chars@.skip(start as int)) is None,
        }),
{
    if start == chars.len() {
        return None;
    }
    if chars[start] != '"' {
        proof {
            assert(chars@.skip(start as int)[0] == chars@[start as int]);
        }
        return None;
    }
    proof {
        assert(chars@.skip(start as int)[0] == chars@[start as int]);
        assert(chars@.skip(start as int).drop_first() =~= chars@.skip(start as int + 1));
    }
    let mut content = String::new();
    let mut i: usize = start + 1;
    loop
        invariant
            start + 1 <= i <= chars@.len(),
            start < chars@.len(),
            chars@[start as int] == '"',
            (match scan_body(chars@.skip(i as int)) {
                Some(p) => scan_body(chars@.skip(start as int + 1)) == Some((content@ + p.0, p.1)),
                None => scan_body(chars@.skip(start as int + 1)) is None,
            }),
        decreases chars@.len() - i,
    {
        proof {
            assert(chars@.skip(start as int)[0] == chars@[start as int]);
            assert(chars@.skip(start as int).drop_first() =~= chars@.skip(start as int + 1));
        }
        if i == chars.len() {
            proof {
                assert(chars@.skip(i as int) =~= Seq::<char>::empty());
            }
            return None;
        }
        let c = chars[i];
        proof {
            assert(chars@.skip(i as int)[0] == chars@[i as int]);
        }
        if c == '"' {
            proof {
                assert(chars@.skip(i as int).drop_first() =~= chars@.skip(i + 1));
                assert(content@ + Seq::<char>::empty() =~= content@);
                assert(chars@.skip(start as int)[0] == chars@[start as int]);
                assert(chars@.skip(start as int).drop_first() =~= chars@.skip(start as int + 1));
            }
            return Some((content, i + 1));
        } else if c == '\\' {
            if i + 1 == chars.len() {
                proof {
                    assert(chars@.skip(i as int).len() == 1);
                }
                return None;
            }
            let c2 = chars[i + 1];
            proof {
                assert(chars@.skip(i as int)[1] == chars@[i + 1]);
            }
            if c2 == '"' || c2 == '\\' {
                let ghost before = content@;
                push_char(&mut content, c2);
                proof {
                    assert(chars@.skip(i as int).skip(2) =~= chars@.skip(i + 2));
                    match scan_body(chars@.skip(i + 2)) {
                        Some(p) => {
                            assert(before + (seq![c2] + p.0) =~= content@ + p.0);
                        },
                        None => {},
                    }
                }
                i = i + 2;
            } else {
                return None;
            }
        } else {
            let ghost before = content@;
            push_char(&mut content, c);
            proof {
                assert(chars@.skip(i as int).drop_first() =~= chars@.skip(i + 1));
                match scan_body(chars@.skip(i + 1)) {
                    Some(p) => {
                        assert(before + (seq![c] + p.0) =~= content@ + p.0);
                    },
                    None => {},
                }
            }
            i = i + 1;
        }
    }
}

/// Decodes a snapshot back into its entries, in the order they were encoded;
/// returns nothing if the text is not a well-formed snapshot.
pub fn decode(snapshot: &str) -> (r: Option<Vec<(String, String)>>)
    ensures
        (match r {
            Some(v) => spec_decode(snapshot@) == Some(view_of_entries(v@)),
            None => spec_decode(snapshot@) is None,
        }),
{
    let chars = chars_of(snapshot);
    if chars.len() < 2 {
        return None;
    }
    if chars[0] != '{' {
        return None;
    }
    if chars.len() == 2 && chars[1] == '}' {
        let empty: Vec<(String, String)> = Vec::new();
        proof {
            assert(view_of_entries(empty@) =~= Seq::<SpecEntry>::empty());
        }
        return Some(empty);
    }
    let mut acc: Vec<(String, String)> = Vec::new();
    let mut i: usize = 1;
    proof {
        assert(chars@.skip(1) =~= chars@.drop_first());
        assert(view_of_entries(acc@) + parse_entries(chars@.skip(1))->Some_0
            =~= parse_entries(chars@.skip(1))->Some_0);
    }
    loop
        invariant
            1 <= i <= chars@.len(),
            chars@ == snapshot@,
            chars@.len() >= 2,
            chars@[0] == '{',
            !(chars@.len() == 2 && chars@[1] == '}'),
            (match parse_entries(chars@.skip(i as int)) {
                Some(es) => parse_entries(chars@.drop_first()) == Some(view_of_entries(acc@) + es),
                None => parse_entries(chars@.drop_first()) is None,
            }),
        decreases chars@.len() - i,
    {
        proof {
            assert(chars@.skip(1) =~= chars@.drop_first());
        }
        match parse_string(&chars, i) {
            None => {
                return None;
            },
            Some((key, j)) => {
                if j == chars.len() || chars[j] != ':' {
                    proof {
                        assert(j < chars@.len() ==> chars@.skip(j as int)[0] == chars@[j as int]);
                    }
                    return None;
                }
                proof {
                    assert(chars@.skip(j as int)[0] == chars@[j as int]);
                    assert(chars@.skip(j as int).drop_first() =~= chars@.skip(j + 1));
                }
                match parse_string(&chars, j + 1) {
                    None => {
                        return None;
                    },
                    Some((value, m)) => {
                        let ghost kv = (key@, value@);
                        if m < chars.len() && chars[m] == ',' {
                            proof {
                                assert(chars@.skip(m as int)[0] == chars@[m as int]);
                                assert(chars@.skip(m as int).drop_first() =~= chars@.skip(m + 1));
                            }
                            let ghost before = acc@;
                            acc.push((key, value));
                            proof {
                                assert(view_of_entries(acc@) =~= view_of_entries(before) + seq![kv]);
                                match parse_entries(chars@.skip(m + 1)) {
                                    Some(es) => {
                                        assert(view_of_entries(before) + (seq![kv] + es)
                                            =~= view_of_entries(acc@) + es);
                                    },
                                    None => {},
                                }
                            }
                            i = m + 1;
                        } else if m < chars.len() && chars[m] == '}' && m == chars.len() - 1 {
                            proof {
                                assert(chars@.skip(m as int)[0] == chars@[m as int]);
                                assert(chars@.skip(m as int).len() == 1);
                            }
                            let ghost before = acc@;
                            acc.push((key, value));
                            proof {
                                assert(view_of_entries(acc@) =~= view_of_entries(before) + seq![kv]);
                                assert(parse_entries(chars@.skip(i as int)) == Some(seq![kv]));
                            }
                            return Some(acc);
                        } else {
                            proof {
                                assert(m < chars@.len() ==> chars@.skip(m as int)[0] == chars@[m as int]);
                                assert(chars@.skip(m as int).len() == chars@.len() - m);
                            }
                            return None;
                        }
                    },
                }
            },
        }
    }
}

/// Scanning an escaped body followed by a closing quote recovers the body.
proof fn lemma_scan_escape(s: Seq<char>, rest: Seq<char>)
    ensures
        scan_body(spec_escape(s) + seq!['"'] + rest) == Some((s, rest)),
    decreases s.len(),
{
    let input = spec_escape(s) + seq!['"'] + rest;
    if s.len() == 0 {
        assert(input =~= seq!['"'] + rest);
        assert(input[0] == '"');
        assert(input.drop_first() =~= rest);
    } else {
        let c = s[0];
        let t = s.drop_first();
        lemma_scan_escape(t, rest);
        assert(spec_escape(s) == esc_char(c) + spec_escape(t));
        let tail = spec_escape(t) + seq!['"'] + rest;
        if c == '"' || c == '\\' {
            assert(esc_char(c) == seq!['\\', c]);
            assert(input =~= seq!['\\', c] + tail);
            assert(input[0] == '\\');
            assert(input.len() >= 2 && input[1] == c);
            assert(input.skip(2) =~= tail);
            assert(scan_body(input) == Some((seq![c] + t, rest)));
            assert(seq![c] + t =~= s);
        } else {
            assert(esc_char(c) == seq![c]);
            assert(input =~= seq![c] + tail);
            assert(input[0] == c);
            assert(input.drop_first() =~= tail);
            assert(scan_body(input) == Some((seq![c] + t, rest)));
            assert(seq![c] + t =~= s);
        }
    }
}

/// Parsing a quoted string from its own encoding recovers the string.
proof fn lemma_parse_quoted_encode(s: Seq<char>, rest: Seq<char>)
    ensures
        parse_quoted(spec_quote(s) + rest) == Some((s, rest)),
{
    let input = spec_quote(s) + rest;
    assert(input =~= seq!['"'] + (spec_escape(s) + seq!['"'] + rest));
    assert(input[0] == '"');
    assert(input.drop_first() =~= spec_escape(s) + seq!['"'] + rest);
    lemma_scan_escape(s, rest);
}

/// Parsing the encoding of a nonempty entry run, closed by the final brace,
/// recovers the entries.
proof fn lemma_parse_entries_encode(es: Seq<SpecEntry>)
    requires
        es.len() > 0,
    ensures
        parse_entries(spec_encode_entries(es) + seq!['}']) == Some(es),
    decreases es.len(),
{
    let input = spec_encode_entries(es) + seq!['}'];
    let (k, v) = es[0];
    assert(spec_encode_entry(es[0]) == spec_quote(k) + seq![':'] + spec_quote(v));
    if es.len() == 1 {
        assert(input =~= spec_quote(k) + (seq![':'] + spec_quote(v) + seq!['}']));
        lemma_parse_quoted_encode(k, seq![':'] + spec_quote(v) + seq!['}']);
        let r1 = seq![':'] + spec_quote(v) + seq!['}'];
        assert(r1[0] == ':');
        assert(r1.drop_first() =~= spec_quote(v) + seq!['}']);
        lemma_parse_quoted_encode(v, seq!['}']);
        let r2 = seq!['}'];
        assert(r2.len() == 1 && r2[0] == '}');
        assert(parse_entries(input) == Some(seq![(k, v)]));
        assert(seq![(k, v)] =~= es);
    } else {
        let tail = es.drop_first();
        lemma_parse_entries_encode(tail);
        assert(spec_encode_entries(es) == spec_encode_entry(es[0]) + seq![',']
            + spec_encode_entries(tail));
        let after_v = seq![','] + spec_encode_entries(tail) + seq!['}'];
        assert(input =~= spec_quote(k) + (seq![':'] + spec_quote(v) + after_v));
        lemma_parse_quoted_encode(k, seq![':'] + spec_quote(v) + after_v);
        let r1 = seq![':'] + spec_quote(v) + after_v;
        assert(r1[0] == ':');
        assert(r1.drop_first() =~= spec_quote(v) + after_v);
        lemma_parse_quoted_encode(v, after_v);
        assert(after_v[0] == ',');
        assert(after_v.len() > 1);
        assert(after_v.drop_first() =~= spec_encode_entries(tail) + seq!['}']);
        assert(parse_entries(input) == Some(seq![(k, v)] + tail));
        assert(seq![(k, v)] + tail =~= es);
    }
}

/// The round trip: decoding the snapshot of any entry run gives back exactly
/// that run. Every store state can be saved and reloaded without loss.
pub proof fn lemma_decode_of_encode(es: Seq<SpecEntry>)
    ensures
        spec_decode(spec_encode(es)) == Some(es),
{
    let input = spec_encode(es);
    if es.len() == 0 {
        assert(spec_encode_entries(es) == Seq::<char>::empty());
        assert(input =~= seq!['{', '}']);
        assert(input.len() == 2 && input[0] == '{' && input[1] == '}');
        assert(Some(Seq::<SpecEntry>::empty()) == Some(es));
    } else {
        lemma_parse_entries_encode(es);
        let inner = spec_encode_entries(es);
        assert(spec_encode_entry(es[0]).len() >= 5);
        assert(inner[0] == spec_encode_entry(es[0])[0]);
        assert(spec_encode_entry(es[0])[0] == '"');
        assert(input.len() >= 2 && input[0] == '{');
        assert(input[1] == inner[0]);
        assert(!(input.len() == 2 && input[1] == '}'));
        assert(input.drop_first() =~= inner + seq!['}']);
    }
}

} // verus!
