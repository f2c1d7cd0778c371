use vstd::prelude::*;

use crate::entry::EntryView;
use crate::entry::IndexEntry;
use crate::entry::views_of;
use crate::text::chars_vec;
use crate::text::push_char;

verus! {

// ---------------------------------------------------------------------
// The persisted form of an index snapshot: one array of records in
// order, each with the stable field names name, path, is_directory and
// parent_folder, written without any whitespace. Strings escape the
// quote, the backslash and control characters as \u00xy; everything
// else stands for itself.
// ---------------------------------------------------------------------

/// The sixteen hexadecimal digits, lowercase.
pub open spec fn hex_digits() -> Seq<char> {
    seq!['0', '1', '2', '3', '4', '5', '6', '7', '8', '9', 'a', 'b', 'c', 'd', 'e', 'f']
}

/// The characters that cannot stand for themselves inside a string.
pub open spec fn needs_escape(c: char) -> bool {
    c == '"' || c == '\\' || (c as u32) < 32
}

/// How one character is written inside a string.
pub open spec fn escape_char(c: char) -> Seq<char> {
    if needs_escape(c) {
        seq![
            '\\',
            'u',
            '0',
            '0',
            hex_digits()[(c as u32 / 16) as int],
            hex_digits()[(c as u32 % 16) as int],
        ]
    } else {
        seq![c]
    }
}

/// The body of an encoded string: each character escaped, in order.
pub open spec fn encode_string(s: Seq<char>) -> Seq<char>
    decreases s.len(),
{
    if s.len() == 0 {
        Seq::<char>::empty()
    } else {
        escape_char(s[0]) + encode_string(s.drop_first())
    }
}

/// An encoded string with its quotes.
pub open spec fn quoted(s: Seq<char>) -> Seq<char> {
    seq!['"'] + encode_string(s) + seq!['"']
}

/// An encoded boolean.
pub open spec fn bool_chars(b: bool) -> Seq<char> {
    if b {
        seq!['t', 'r', 'u', 'e']
    } else {
        seq!['f', 'a', 'l', 's', 'e']
    }
}

/// The label opening a record and naming its first field.
pub open spec fn name_label() -> Seq<char> {
    seq!['{', '"', 'n', 'a', 'm', 'e', '"', ':']
}

/// The label of the path field.
pub open spec fn path_label() -> Seq<char> {
    seq![',', '"', 'p', 'a', 't', 'h', '"', ':']
}

/// The label of the directory flag.
pub open spec fn dir_label() -> Seq<char> {
    seq![',', '"', 'i', 's', '_', 'd', 'i', 'r', 'e', 'c', 't', 'o', 'r', 'y', '"', ':']
}

/// The label of the parent-folder field.
pub open spec fn parent_label() -> Seq<char> {
    seq![',', '"', 'p', 'a', 'r', 'e', 'n', 't', '_', 'f', 'o', 'l', 'd', 'e', 'r', '"', ':']
}

/// One encoded record.
pub open spec fn encode_entry(e: EntryView) -> Seq<char> {
    name_label() + quoted(e.name) + path_label() + quoted(e.path) + dir_label() + bool_chars(
        e.is_directory,
    ) + parent_label() + quoted(e.parent_folder) + seq!['}']
}

/// Encoded records joined by commas.
pub open spec fn encode_list(es: Seq<EntryView>) -> Seq<char>
    decreases es.len(),
{
    if es.len() == 0 {
        Seq::<char>::empty()
    } else if es.len() == 1 {
        encode_entry(es[0])
    } else {
        encode_entry(es[0]) + seq![','] + encode_list(es.drop_first())
    }
}

/// The whole persisted document.
pub open spec fn encode_index_spec(es: Seq<EntryView>) -> Seq<char> {
    seq!['['] + encode_list(es) + seq![']']
}

// ---------------------------------------------------------------------
// The parser, at the specification level. Every parser takes the whole
// document and a position, and yields the parsed value with the
// position just past it, or nothing if the text does not parse.
// ---------------------------------------------------------------------

/// The value of one hexadecimal digit, lowercase only.
pub open spec fn hex_val(c: char) -> Option<int> {
    if c == '0' {
        Some(0int)
    } else if c == '1' {
        Some(1int)
    } else if c == '2' {
        Some(2int)
    } else if c == '3' {
        Some(3int)
    } else if c == '4' {
        Some(4int)
    } else if c == '5' {
        Some(5int)
    } else if c == '6' {
        Some(6int)
    } else if c == '7' {
        Some(7int)
    } else if c == '8' {
        Some(8int)
    } else if c == '9' {
        Some(9int)
    } else if c == 'a' {
        Some(10int)
    } else if c == 'b' {
        Some(11int)
    } else if c == 'c' {
        Some(12int)
    } else if c == 'd' {
        Some(13int)
    } else if c == 'e' {
        Some(14int)
    } else if c == 'f' {
        Some(15int)
    } else {
        None
    }
}

/// The character with a given scalar value below the surrogate range.
pub open spec fn char_of_val(v: u32) -> char {
    choose|c: char| (#[trigger] (c as u32)) == v
}

/// The short escapes a reader also accepts, for interoperability.
pub open spec fn short_escape(c: char) -> Option<char> {
    if c == '"' {
        Some('"')
    } else if c == '\\' {
        Some('\\')
    } else if c == '/' {
        Some('/')
    } else if c == 'b' {
        Some('\u{0008}')
    } else if c == 'f' {
        Some('\u{000c}')
    } else if c == 'n' {
        Some('\n')
    } else if c == 'r' {
        Some('\r')
    } else if c == 't' {
        Some('\t')
    } else {
        None
    }
}

/// Parses the body of a string up to and past its closing quote.
pub open spec fn parse_string_body(s: Seq<char>, i: int) -> Option<(Seq<char>, int)>
    decreases s.len() - i,
{
    if i < 0 || i >= s.len() {
        None
    } else if s[i] == '"' {
        Some((Seq::<char>::empty(), i + 1))
    } else if s[i] == '\\' {
        if i + 1 >= s.len() {
            None
        } else if s[i + 1] == 'u' {
            if i + 6 > s.len() {
                None
            } else {
                match (hex_val(s[i + 2]), hex_val(s[i + 3]), hex_val(s[i + 4]), hex_val(
                    s[i + 5],
                )) {
                    (Some(h0), Some(h1), Some(h2), Some(h3)) => {
                        let v = ((h0 * 16 + h1) * 16 + h2) * 16 + h3;
                        if v < 0xD800 {
                            match parse_string_body(s, i + 6) {
                                Some((t, k)) => Some((seq![char_of_val(v as u32)] + t, k)),
                                None => None,
                            }
                        } else {
                            None
                        }
                    },
                    _ => None,
                }
            }
        } else {
            match short_escape(s[i + 1]) {
                Some(c) => match parse_string_body(s, i + 2) {
                    Some((t, k)) => Some((seq![c] + t, k)),
                    None => None,
                },
                None => None,
            }
        }
    } else if (s[i] as u32) < 32 {
        None
    } else {
        match parse_string_body(s, i + 1) {
            Some((t, k)) => Some((seq![s[i]] + t, k)),
            None => None,
        }
    }
}

/// Parses a quoted string.
pub open spec fn parse_quoted(s: Seq<char>, i: int) -> Option<(Seq<char>, int)> {
    if 0 <= i < s.len() && s[i] == '"' {
        parse_string_body(s, i + 1)
    } else {
        None
    }
}

/// Demands an exact run of characters.
pub open spec fn parse_literal(s: Seq<char>, i: int, lit: Seq<char>) -> Option<int> {
    if 0 <= i && i + lit.len() <= s.len() && s.subrange(i, i + lit.len()) == lit {
        Some(i + lit.len())
    } else {
        None
    }
}

/// Parses a boolean.
pub open spec fn parse_bool(s: Seq<char>, i: int) -> Option<(bool, int)> {
    match parse_literal(s, i, bool_chars(true)) {
        Some(k) => Some((true, k)),
        None => match parse_literal(s, i, bool_chars(false)) {
            Some(k) => Some((false, k)),
            None => None,
        },
    }
}

/// Parses one record.
pub open spec fn parse_entry(s: Seq<char>, i: int) -> Option<(EntryView, int)> {
    match parse_literal(s, i, name_label()) {
        None => None,
        Some(k1) => match parse_quoted(s, k1) {
            None => None,
            Some((name, k2)) => match parse_literal(s, k2, path_label()) {
                None => None,
                Some(k3) => match parse_quoted(s, k3) {
                    None => None,
                    Some((path, k4)) => match parse_literal(s, k4, dir_label()) {
                        None => None,
                        Some(k5) => match parse_bool(s, k5) {
                            None => None,
                            Some((isdir, k6)) => match parse_literal(s, k6, parent_label()) {
                                None => None,
                                Some(k7) => match parse_quoted(s, k7) {
                                    None => None,
                                    Some((parent, k8)) => match parse_literal(
                                        s,
                                        k8,
                                        seq!['}'],
                                    ) {
                                        None => None,
                                        Some(k9) => Some(
                                            (
                                                EntryView {
                                                    name,
                                                    path,
                                                    is_directory: isdir,
                                                    parent_folder: parent,
                                                },
                                                k9,
                                            ),
                                        ),
                                    },
                                },
                            },
                        },
                    },
                },
            },
        },
    }
}

/// Parses one or more comma-separated records.
pub open spec fn parse_list(s: Seq<char>, i: int) -> Option<(Seq<EntryView>, int)>
    decreases s.len() - i,
{
    if i < 0 {
        None
    } else {
        match parse_entry(s, i) {
            None => None,
            Some((e, k)) => if k <= i || k > s.len() {
                None  // a record always advances; this arm never runs
            } else if k < s.len() && s[k] == ',' {
                match parse_list(s, k + 1) {
                    None => None,
                    Some((es, k2)) => Some((seq![e] + es, k2)),
                }
            } else {
                Some((seq![e], k))
            },
        }
    }
}

/// Parses a whole persisted document: nothing else may follow it.
pub open spec fn decode_index_spec(s: Seq<char>) -> Option<Seq<EntryView>> {
    if s.len() < 2 || s[0] != '[' {
        None
    } else if s.len() == 2 && s[1] == ']' {
        Some(Seq::<EntryView>::empty())
    } else {
        match parse_list(s, 1) {
            None => None,
            Some((es, k)) => if k + 1 == s.len() && k < s.len() && s[k] == ']' {
                Some(es)
            } else {
                None
            },
        }
    }
}

// ---------------------------------------------------------------------
// The encoder.
// ---------------------------------------------------------------------

/// Encoding one character more encodes it at the end.
proof fn lemma_encode_push(x: Seq<char>, c: char)
    ensures
        encode_string(x.push(c)) == encode_string(x) + escape_char(c),
    decreases x.len(),
{
    if x.len() == 0 {
        assert(x.push(c).len() == 1);
        assert(x.push(c)[0] == c);
        assert(x.push(c).drop_first() =~= x);
        assert(encode_string(x.push(c)) == escape_char(c) + encode_string(x));
        assert(encode_string(x) == Seq::<char>::empty());
        assert(escape_char(c) + Seq::<char>::empty() =~= Seq::<char>::empty() + escape_char(c));
    } else {
        assert(x.push(c)[0] == x[0]);
        assert(x.push(c).drop_first() =~= x.drop_first().push(c));
        lemma_encode_push(x.drop_first(), c);
        assert(encode_string(x.push(c)) == escape_char(x[0]) + (encode_string(x.drop_first())
            + escape_char(c)));
        assert(escape_char(x[0]) + (encode_string(x.drop_first()) + escape_char(c)) =~= (
        escape_char(x[0]) + encode_string(x.drop_first())) + escape_char(c));
    }
}

/// Encoding one record more joins it at the end, after a comma unless it
/// is the first.
proof fn lemma_encode_list_push(x: Seq<EntryView>, e: EntryView)
    ensures
        encode_list(x.push(e)) == (if x.len() == 0 {
            encode_entry(e)
        } else {
            encode_list(x) + seq![','] + encode_entry(e)
        }),
    decreases x.len(),
{
    if x.len() == 0 {
        assert(x.push(e).len() == 1);
        assert(x.push(e)[0] == e);
    } else if x.len() == 1 {
        assert(x.push(e)[0] == x[0]);
        assert(x.push(e).drop_first() =~= seq![e]);
        assert(encode_list(seq![e]) == encode_entry(e));
        assert(encode_list(x) == encode_entry(x[0]));
        assert(encode_list(x.push(e)) == encode_entry(x[0]) + seq![','] + encode_entry(e));
    } else {
        assert(x.push(e)[0] == x[0]);
        assert(x.push(e).drop_first() =~= x.drop_first().push(e));
        lemma_encode_list_push(x.drop_first(), e);
        assert(encode_list(x.push(e)) == encode_entry(x[0]) + seq![','] + (encode_list(
            x.drop_first(),
        ) + seq![','] + encode_entry(e)));
        assert(encode_entry(x[0]) + seq![','] + (encode_list(x.drop_first()) + seq![',']
            + encode_entry(e)) =~= (encode_entry(x[0]) + seq![','] + encode_list(x.drop_first()))
            + seq![','] + encode_entry(e));
    }
}

/// Writes one hexadecimal digit.
fn push_hex(out: &mut String, n: u32)
    requires
        n < 16,
    ensures
        final(out)@ == old(out)@.push(hex_digits()[n as int]),
{
    let c: char = if n == 0 {
        '0'
    } else if n == 1 {
        '1'
    } else if n == 2 {
        '2'
    } else if n == 3 {
        '3'
    } else if n == 4 {
        '4'
    } else if n == 5 {
        '5'
    } else if n == 6 {
        '6'
    } else if n == 7 {
        '7'
    } else if n == 8 {
        '8'
    } else if n == 9 {
        '9'
    } else if n == 10 {
        'a'
    } else if n == 11 {
        'b'
    } else if n == 12 {
        'c'
    } else if n == 13 {
        'd'
    } else if n == 14 {
        'e'
    } else {
        'f'
    };
    push_char(out, c);
}

/// Writes one character in its escaped form.
fn push_escaped(out: &mut String, c: char)
    ensures
        final(out)@ == old(out)@ + escape_char(c),
{
    let v = c as u32;
    if c == '"' || c == '\\' || v < 32 {
        push_char(out, '\\');
        push_char(out, 'u');
        push_char(out, '0');
        push_char(out, '0');
        push_hex(out, v / 16);
        push_hex(out, v % 16);
        proof {
            assert(out@ =~= old(out)@ + escape_char(c));
        }
    } else {
        push_char(out, c);
        proof {
            assert(out@ =~= old(out)@ + escape_char(c));
        }
    }
}

/// Writes a string with its quotes, escaped.
fn push_quoted(out: &mut String, s: &str)
    ensures
        final(out)@ == old(out)@ + quoted(s@),
{
    push_char(out, '"');
    let cv = chars_vec(s);
    let mut m: usize = 0;
    proof {
        assert(s@.take(0) =~= Seq::<char>::empty());
        assert(out@ =~= old(out)@ + seq!['"'] + encode_string(s@.take(0)));
    }
    while m < cv.len()
        invariant
            m <= cv@.len(),
            cv@ == s@,
            out@ == old(out)@ + seq!['"'] + encode_string(s@.take(m as int)),
        decreases cv@.len() - m,
    {
        push_escaped(out, cv[m]);
        proof {
            lemma_encode_push(s@.take(m as int), s@[m as int]);
            assert(s@.take(m as int).push(s@[m as int]) =~= s@.take(m as int + 1));
            assert(out@ =~= old(out)@ + seq!['"'] + encode_string(s@.take(m as int + 1)));
        }
        m = m + 1;
    }
    push_char(out, '"');
    proof {
        assert(s@.take(s@.len() as int) =~= s@);
        assert(out@ =~= old(out)@ + quoted(s@));
    }
}

/// Writes one record.
fn push_entry(out: &mut String, e: &IndexEntry)
    ensures
        final(out)@ == old(out)@ + encode_entry(e@),
{
    out.append("{\"name\":");
    proof {
        reveal_strlit("{\"name\":");
        assert("{\"name\":"@ =~= name_label());
    }
    push_quoted(out, e.name.as_str());
    out.append(",\"path\":");
    proof {
        reveal_strlit(",\"path\":");
        assert(",\"path\":"@ =~= path_label());
    }
    push_quoted(out, e.path.as_str());
    out.append(",\"is_directory\":");
    proof {
        reveal_strlit(",\"is_directory\":");
        assert(",\"is_directory\":"@ =~= dir_label());
    }
    if e.is_directory {
        out.append("true");
        proof {
            reveal_strlit("true");
            assert("true"@ =~= bool_chars(true));
        }
    } else {
        out.append("false");
        proof {
            reveal_strlit("false");
            assert("false"@ =~= bool_chars(false));
        }
    }
    out.append(",\"parent_folder\":");
    proof {
        reveal_strlit(",\"parent_folder\":");
        assert(",\"parent_folder\":"@ =~= parent_label());
    }
    push_quoted(out, e.parent_folder.as_str());
    push_char(out, '}');
    proof {
        assert(out@ =~= old(out)@ + encode_entry(e@));
    }
}

/// Encodes a snapshot as its persisted document.
pub fn encode_index(entries: &Vec<IndexEntry>) -> (r: String)
    ensures
        r@ == encode_index_spec(views_of(entries@)),
{
    let mut out = String::new();
    push_char(&mut out, '[');
    let ghost vall = views_of(entries@);
    let mut i: usize = 0;
    proof {
        assert(vall.take(0) =~= Seq::<EntryView>::empty());
        assert(out@ =~= seq!['['] + encode_list(vall.take(0)));
    }
    while i < entries.len()
        invariant
            i <= entries@.len(),
            vall == views_of(entries@),
            vall.len() == entries@.len(),
            out@ == seq!['['] + encode_list(vall.take(i as int)),
        decreases entries@.len() - i,
    {
        if i > 0 {
            push_char(&mut out, ',');
        }
        push_entry(&mut out, &entries[i]);
        proof {
            lemma_encode_list_push(vall.take(i as int), vall[i as int]);
            assert(vall.take(i as int).push(vall[i as int]) =~= vall.take(i as int + 1));
            assert(out@ =~= seq!['['] + encode_list(vall.take(i as int + 1)));
        }
        i = i + 1;
    }
    push_char(&mut out, ']');
    proof {
        assert(vall.take(entries@.len() as int) =~= vall);
        assert(out@ =~= encode_index_spec(vall));
    }
    out
}

// ---------------------------------------------------------------------
// The decoder. Each function computes exactly what its parser at the
// specification level says.
// ---------------------------------------------------------------------

/// Relies on `char::from_u32`: every value below the surrogate range is
/// a valid scalar, and it comes back as exactly that character.
#[verifier::external_body]
fn char_from_u32(v: u32) -> (r: char)
    requires
        v < 0xD800,
    ensures
        r as u32 == v,
{
    char::from_u32(v).unwrap_or(' ')
}

/// One hexadecimal digit's value, as the parser sees it.
fn hex_val_exec(c: char) -> (r: Option<u32>)
    ensures
        (match r {
            Some(v) => hex_val(c) == Some(v as int) && v < 16,
            None => hex_val(c) is None,
        }),
{
    if c >= '0' && c <= '9' {
        Some(c as u32 - 48)
    } else if c >= 'a' && c <= 'f' {
        Some(c as u32 - 87)
    } else {
        None
    }
}

/// Parses a string body, mirroring `parse_string_body`.
fn parse_string_body_exec(s: &Vec<char>, i: usize) -> (r: Option<(String, usize)>)
    ensures
        (match r {
            Some((t, k)) => parse_string_body(s@, i as int) == Some((t@, k as int)) && i < k <= s@.len(),
            None => parse_string_body(s@, i as int) is None,
        }),
{
    if i >= s.len() {
        return None;
    }
    let mut cur: usize = i;
    let mut acc = String::new();
    proof {
        assert(acc@ =~= Seq::<char>::empty());
    }
    loop
        invariant
            i <= cur <= s@.len(),
            forall|t: Seq<char>, k: int|
                parse_string_body(s@, cur as int) == Some((t, k)) ==> parse_string_body(
                    s@,
                    i as int,
                ) == Some((acc@ + t, k)),
            parse_string_body(s@, cur as int) is None ==> parse_string_body(s@, i as int) is None,
        decreases s@.len() - cur,
    {
        if cur >= s.len() {
            return None;
        }
        let c = s[cur];
        if c == '"' {
            proof {
                assert(parse_string_body(s@, cur as int) == Some(
                    (Seq::<char>::empty(), cur + 1int),
                ));
                assert(acc@ + Seq::<char>::empty() =~= acc@);
            }
            return Some((acc, cur + 1));
        } else if c == '\\' {
            if cur + 1 >= s.len() {
                return None;
            }
            let c2 = s[cur + 1];
            if c2 == 'u' {
                if s.len() - cur < 6 {
                    return None;
                }
                let h0 = hex_val_exec(s[cur + 2]);
                let h1 = hex_val_exec(s[cur + 3]);
                let h2 = hex_val_exec(s[cur + 4]);
                let h3 = hex_val_exec(s[cur + 5]);
                match (h0, h1, h2, h3) {
                    (Some(v0), Some(v1), Some(v2), Some(v3)) => {
                        let v = ((v0 * 16 + v1) * 16 + v2) * 16 + v3;
                        if v >= 0xD800 {
                            return None;
                        }
                        let cc = char_from_u32(v);
                        proof {
                            assert(char_of_val(v) == cc) by {
                                assert(exists|d: char| (#[trigger] (d as u32)) == v) by {
                                    assert(cc as u32 == v);
                                }
                                assert(char_of_val(v) as u32 == v);
                            }
                        }
                        let ghost oldacc = acc@;
                        push_char(&mut acc, cc);
                        proof {
                            assert forall|t: Seq<char>, k: int|
                                parse_string_body(s@, cur + 6int) == Some((t, k)) implies
                                parse_string_body(s@, i as int) == Some((acc@ + t, k)) by {
                                assert(parse_string_body(s@, cur as int) == Some(
                                    (seq![cc] + t, k),
                                ));
                                assert(oldacc + (seq![cc] + t) =~= acc@ + t);
                            }
                        }
                        cur = cur + 6;
                    },
                    _ => {
                        return None;
                    },
                }
            } else {
                let mapped: Option<char> = if c2 == '"' {
                    Some('"')
                } else if c2 == '\\' {
                    Some('\\')
                } else if c2 == '/' {
                    Some('/')
                } else if c2 == 'b' {
                    Some('\u{0008}')
                } else if c2 == 'f' {
                    Some('\u{000c}')
                } else if c2 == 'n' {
                    Some('\n')
                } else if c2 == 'r' {
                    Some('\r')
                } else if c2 == 't' {
                    Some('\t')
                } else {
                    None
                };
                match mapped {
                    Some(mc) => {
                        let ghost oldacc = acc@;
                        push_char(&mut acc, mc);
                        proof {
                            assert(short_escape(s@[cur + 1int]) == Some(mc));
                            assert forall|t: Seq<char>, k: int|
                                parse_string_body(s@, cur + 2int) == Some((t, k)) implies
                                parse_string_body(s@, i as int) == Some((acc@ + t, k)) by {
                                assert(parse_string_body(s@, cur as int) == Some(
                                    (seq![mc] + t, k),
                                ));
                                assert(oldacc + (seq![mc] + t) =~= acc@ + t);
                            }
                        }
                        cur = cur + 2;
                    },
                    None => {
                        proof {
                            assert(short_escape(s@[cur + 1int]) is None);
                        }
                        return None;
                    },
                }
            }
        } else if (c as u32) < 32 {
            return None;
        } else {
            let ghost oldacc = acc@;
            push_char(&mut acc, c);
            proof {
                assert forall|t: Seq<char>, k: int|
                    parse_string_body(s@, cur + 1int) == Some((t, k)) implies parse_string_body(
                    s@,
                    i as int,
                ) == Some((acc@ + t, k)) by {
                    assert(parse_string_body(s@, cur as int) == Some((seq![c] + t, k)));
                    assert(oldacc + (seq![c] + t) =~= acc@ + t);
                }
            }
            cur = cur + 1;
        }
    }
}

/// Demands an exact run of characters, mirroring `parse_literal`.
fn parse_literal_exec(s: &Vec<char>, i: usize, lit: &Vec<char>) -> (r: Option<usize>)
    ensures
        (match r {
            Some(k) => parse_literal(s@, i as int, lit@) == Some(k as int) && i <= k <= s@.len(),
            None => parse_literal(s@, i as int, lit@) is None,
        }),
{
    if i > s.len() || s.len() - i < lit.len() {
        return None;
    }
    let mut j: usize = 0;
    while j < lit.len()
        invariant
            j <= lit@.len(),
            i + lit@.len() <= s@.len(),
            s@.len() <= usize::MAX,
            forall|m: int| 0 <= m < j ==> s@[i + m] == lit@[m],
        decreases lit@.len() - j,
    {
        if s[i + j] != lit[j] {
            proof {
                assert(parse_literal(s@, i as int, lit@) is None) by {
                    if s@.subrange(i as int, i + lit@.len()) == lit@ {
                        assert(s@.subrange(i as int, i + lit@.len())[j as int] == lit@[j as int]);
                    }
                }
            }
            return None;
        }
        j = j + 1;
    }
    proof {
        assert(s@.subrange(i as int, i + lit@.len()) =~= lit@);
    }
    Some(i + lit.len())
}

/// Parses a quoted string, mirroring `parse_quoted`.
fn parse_quoted_exec(s: &Vec<char>, i: usize) -> (r: Option<(String, usize)>)
    ensures
        (match r {
            Some((t, k)) => parse_quoted(s@, i as int) == Some((t@, k as int)) && i < k <= s@.len(),
            None => parse_quoted(s@, i as int) is None,
        }),
{
    if i < s.len() && s[i] == '"' {
        parse_string_body_exec(s, i + 1)
    } else {
        None
    }
}

/// Parses a boolean, mirroring `parse_bool`.
fn parse_bool_exec(s: &Vec<char>, i: usize, lit_true: &Vec<char>, lit_false: &Vec<char>) -> (r:
    Option<(bool, usize)>)
    requires
        lit_true@ == bool_chars(true),
        lit_false@ == bool_chars(false),
    ensures
        (match r {
            Some((b, k)) => parse_bool(s@, i as int) == Some((b, k as int)) && i <= k <= s@.len(),
            None => parse_bool(s@, i as int) is None,
        }),
{
    match parse_literal_exec(s, i, lit_true) {
        Some(k) => Some((true, k)),
        None => match parse_literal_exec(s, i, lit_false) {
            Some(k) => Some((false, k)),
            None => None,
        },
    }
}

/// The fixed pieces of text the record parser expects.
struct Labels {
    name: Vec<char>,
    path: Vec<char>,
    dir: Vec<char>,
    parent: Vec<char>,
    lit_true: Vec<char>,
    lit_false: Vec<char>,
    close: Vec<char>,
}

impl Labels {
    spec fn wf(&self) -> bool {
        &&& self.name@ == name_label()
        &&& self.path@ == path_label()
        &&& self.dir@ == dir_label()
        &&& self.parent@ == parent_label()
        &&& self.lit_true@ == bool_chars(true)
        &&& self.lit_false@ == bool_chars(false)
        &&& self.close@ == seq!['}']
    }

    fn new() -> (r: Labels)
        ensures
            r.wf(),
    {
        let name = chars_vec("{\"name\":");
        let path = chars_vec(",\"path\":");
        let dir = chars_vec(",\"is_directory\":");
        let parent = chars_vec(",\"parent_folder\":");
        let lit_true = chars_vec("true");
        let lit_false = chars_vec("false");
        let close = chars_vec("}");
        proof {
            reveal_strlit("{\"name\":");
            reveal_strlit(",\"path\":");
            reveal_strlit(",\"is_directory\":");
            reveal_strlit(",\"parent_folder\":");
            reveal_strlit("true");
            reveal_strlit("false");
            reveal_strlit("}");
            assert(name@ =~= name_label());
            assert(path@ =~= path_label());
            assert(dir@ =~= dir_label());
            assert(parent@ =~= parent_label());
            assert(lit_true@ =~= bool_chars(true));
            assert(lit_false@ =~= bool_chars(false));
            assert(close@ =~= seq!['}']);
        }
        Labels { name, path, dir, parent, lit_true, lit_false, close }
    }
}

/// Parses one record, mirroring `parse_entry`.
fn parse_entry_exec(s: &Vec<char>, i: usize, labels: &Labels) -> (r: Option<(IndexEntry, usize)>)
    requires
        labels.wf(),
    ensures
        (match r {
            Some((e, k)) => parse_entry(s@, i as int) == Some((e@, k as int)) && i < k <= s@.len(),
            None => parse_entry(s@, i as int) is None,
        }),
{
    let k1 = match parse_literal_exec(s, i, &labels.name) {
        Some(k) => k,
        None => {
            return None;
        },
    };
    let (name, k2) = match parse_quoted_exec(s, k1) {
        Some(p) => p,
        None => {
            return None;
        },
    };
    let k3 = match parse_literal_exec(s, k2, &labels.path) {
        Some(k) => k,
        None => {
            return None;
        },
    };
    let (path, k4) = match parse_quoted_exec(s, k3) {
        Some(p) => p,
        None => {
            return None;
        },
    };
    let k5 = match parse_literal_exec(s, k4, &labels.dir) {
        Some(k) => k,
        None => {
            return None;
        },
    };
    let (isdir, k6) = match parse_bool_exec(s, k5, &labels.lit_true, &labels.lit_false) {
        Some(p) => p,
        None => {
            return None;
        },
    };
    let k7 = match parse_literal_exec(s, k6, &labels.parent) {
        Some(k) => k,
        None => {
            return None;
        },
    };
    let (parent, k8) = match parse_quoted_exec(s, k7) {
        Some(p) => p,
        None => {
            return None;
        },
    };
    let k9 = match parse_literal_exec(s, k8, &labels.close) {
        Some(k) => k,
        None => {
            return None;
        },
    };
    let e = IndexEntry { name, path, is_directory: isdir, parent_folder: parent };
    Some((e, k9))
}

/// Parses one or more comma-separated records, mirroring `parse_list`.
fn parse_list_exec(s: &Vec<char>, i: usize, labels: &Labels) -> (r: Option<(Vec<IndexEntry>, usize)>)
    requires
        labels.wf(),
    ensures
        (match r {
            Some((es, k)) => parse_list(s@, i as int) == Some((views_of(es@), k as int)) && k
                <= s@.len(),
            None => parse_list(s@, i as int) is None,
        }),
{
    if i > s.len() {
        proof {
            assert(parse_literal(s@, i as int, name_label()) is None);
            assert(parse_entry(s@, i as int) is None);
        }
        return None;
    }
    let mut cur: usize = i;
    let mut acc: Vec<IndexEntry> = Vec::new();
    proof {
        assert(views_of(acc@) =~= Seq::<EntryView>::empty());
    }
    loop
        invariant
            labels.wf(),
            i <= cur,
            cur <= s@.len() + 1,
            forall|es: Seq<EntryView>, k: int|
                parse_list(s@, cur as int) == Some((es, k)) ==> parse_list(s@, i as int) == Some(
                    (views_of(acc@) + es, k),
                ),
            parse_list(s@, cur as int) is None ==> parse_list(s@, i as int) is None,
        decreases s@.len() + 1 - cur,
    {
        let (e, k) = match parse_entry_exec(s, cur, labels) {
            Some(p) => p,
            None => {
                return None;
            },
        };
        let ghost oldacc = acc@;
        acc.push(e);
        proof {
            assert(views_of(acc@) =~= views_of(oldacc).push(e@));
        }
        if k < s.len() && s[k] == ',' {
            proof {
                assert forall|es: Seq<EntryView>, k2: int|
                    parse_list(s@, k + 1int) == Some((es, k2)) implies parse_list(s@, i as int)
                    == Some((views_of(acc@) + es, k2)) by {
                    assert(parse_list(s@, cur as int) == Some((seq![e@] + es, k2)));
                    assert(views_of(oldacc) + (seq![e@] + es) =~= views_of(acc@) + es);
                }
            }
            cur = k + 1;
        } else {
            proof {
                assert(parse_list(s@, cur as int) == Some((seq![e@], k as int)));
                assert(views_of(oldacc) + seq![e@] =~= views_of(acc@));
            }
            return Some((acc, k));
        }
    }
}

/// Decodes a persisted document, mirroring `decode_index_spec`.
pub fn decode_index(s: &str) -> (r: Option<Vec<IndexEntry>>)
    ensures
        (match r {
            Some(es) => decode_index_spec(s@) == Some(views_of(es@)),
            None => decode_index_spec(s@) is None,
        }),
{
    let cv = chars_vec(s);
    if cv.len() < 2 {
        return None;
    }
    if cv[0] != '[' {
        return None;
    }
    if cv.len() == 2 && cv[1] == ']' {
        let es: Vec<IndexEntry> = Vec::new();
        proof {
            assert(views_of(es@) =~= Seq::<EntryView>::empty());
        }
        return Some(es);
    }
    let labels = Labels::new();
    match parse_list_exec(&cv, 1, &labels) {
        None => None,
        Some((es, k)) => {
            if k < cv.len() && k + 1 == cv.len() && cv[k] == ']' {
                Some(es)
            } else {
                None
            }
        },
    }
}

// ---------------------------------------------------------------------
// Round trip: parsing an encoded document yields the entries it was
// made from, exactly.
// ---------------------------------------------------------------------

/// Hexadecimal digits read back as their values.
proof fn lemma_hex_digit_val(n: int)
    requires
        0 <= n < 16,
    ensures
        hex_val(hex_digits()[n]) == Some(n),
{
}

/// Below the surrogate range, a character is recovered from its value.
proof fn lemma_char_of_val(c: char)
    requires
        (c as u32) < 0xD800,
    ensures
        char_of_val(c as u32) == c,
{
    assert(exists|d: char| (#[trigger] (d as u32)) == c as u32) by {
        assert(c as u32 == c as u32);
    }
    let d = char_of_val(c as u32);
    assert(d as u32 == c as u32);
}

/// A run of characters that stands at a position parses as itself.
proof fn lemma_parse_literal_at(s: Seq<char>, i: int, lit: Seq<char>)
    requires
        0 <= i,
        i + lit.len() <= s.len(),
        s.subrange(i, i + lit.len()) == lit,
    ensures
        parse_literal(s, i, lit) == Some(i + lit.len()),
{
}

/// Splitting knowledge of a concatenation at a position into its parts.
proof fn lemma_split_at(s: Seq<char>, i: int, a: Seq<char>, b: Seq<char>)
    requires
        0 <= i,
        i + a.len() + b.len() <= s.len(),
        s.subrange(i, i + a.len() + b.len()) == a + b,
    ensures
        s.subrange(i, i + a.len()) == a,
        s.subrange(i + a.len(), i + a.len() + b.len()) == b,
{
    assert forall|m: int| 0 <= m < a.len() implies s.subrange(i, i + a.len())[m] == a[m] by {
        assert((a + b)[m] == s.subrange(i, i + a.len() + b.len())[m]);
    }
    assert(s.subrange(i, i + a.len()) =~= a);
    assert forall|m: int| 0 <= m < b.len() implies s.subrange(
        i + a.len(),
        i + a.len() + b.len(),
    )[m] == b[m] by {
        assert((a + b)[a.len() + m] == s.subrange(i, i + a.len() + b.len())[a.len() + m]);
        assert(s.subrange(i, i + a.len() + b.len())[a.len() + m] == s[i + a.len() + m]);
        assert(s.subrange(i + a.len(), i + a.len() + b.len())[m] == s[i + a.len() + m]);
        assert((a + b)[a.len() + m] == b[m]);
    }
    assert(s.subrange(i + a.len(), i + a.len() + b.len()) =~= b);
}

/// An encoded string body followed by its closing quote parses back to
/// the original characters, ending just past the quote.
proof fn lemma_parse_string_rt(x: Seq<char>, s: Seq<char>, i: int)
    requires
        0 <= i,
        i + encode_string(x).len() + 1 <= s.len(),
        s.subrange(i, i + encode_string(x).len()) == encode_string(x),
        s[i + encode_string(x).len()] == '"',
    ensures
        parse_string_body(s, i) == Some((x, i + encode_string(x).len() + 1)),
    decreases x.len(),
{
    let enc = encode_string(x);
    if x.len() == 0 {
        assert(enc.len() == 0);
        assert(s[i] == '"');
    } else {
        let c = x[0];
        let e0 = escape_char(c);
        let rest = x.drop_first();
        let encr = encode_string(rest);
        assert(enc == e0 + encr);
        lemma_split_at(s, i, e0, encr);
        assert forall|m: int| 0 <= m < e0.len() implies s[i + m] == e0[m] by {
            assert(s.subrange(i, i + e0.len())[m] == e0[m]);
        }
        let j = i + e0.len();
        lemma_parse_string_rt(rest, s, j);
        if needs_escape(c) {
            assert(e0.len() == 6);
            assert(s[i] == '\\');
            assert(s[i + 1] == 'u');
            assert(s[i + 2] == '0');
            assert(s[i + 3] == '0');
            let hi = (c as u32 / 16) as int;
            let lo = (c as u32 % 16) as int;
            assert(0 <= hi < 16 && 0 <= lo < 16);
            lemma_hex_digit_val(hi);
            lemma_hex_digit_val(lo);
            assert(hex_val(s[i + 4]) == Some(hi));
            assert(hex_val(s[i + 5]) == Some(lo));
            let v = ((0 * 16 + 0) * 16 + hi) * 16 + lo;
            assert(v == 16 * hi + lo);
            assert(v == c as u32) by {
                assert(16 * ((c as u32) / 16) + ((c as u32) % 16) == c as u32);
            }
            lemma_char_of_val(c);
            assert(char_of_val(v as u32) == c);
            assert(parse_string_body(s, i) == Some((seq![c] + rest, j + encr.len() + 1)));
            assert(seq![c] + rest =~= x);
        } else {
            assert(e0 =~= seq![c]);
            assert(s[i] == c) by {
                assert(s.subrange(i, i + e0.len())[0] == e0[0]);
            }
            assert(s[i] != '"' && s[i] != '\\' && (s[i] as u32) >= 32);
            assert(parse_string_body(s, i) == Some((seq![c] + rest, j + encr.len() + 1)));
            assert(seq![c] + rest =~= x);
        }
    }
}

/// A quoted string at a position parses back to its characters.
proof fn lemma_parse_quoted_rt(x: Seq<char>, s: Seq<char>, i: int)
    requires
        0 <= i,
        i + quoted(x).len() <= s.len(),
        s.subrange(i, i + quoted(x).len()) == quoted(x),
    ensures
        parse_quoted(s, i) == Some((x, i + quoted(x).len())),
{
    let q = quoted(x);
    let body = encode_string(x);
    assert(q == seq!['"'] + (body + seq!['"'])) by {
        assert(seq!['"'] + body + seq!['"'] =~= seq!['"'] + (body + seq!['"']));
    }
    lemma_split_at(s, i, seq!['"'], body + seq!['"']);
    assert(s[i] == '"') by {
        assert(s.subrange(i, i + 1)[0] == seq!['"'][0]);
    }
    lemma_split_at(s, i + 1, body, seq!['"']);
    assert(s[i + 1 + body.len()] == '"') by {
        assert(s.subrange(i + 1 + body.len(), i + 1 + body.len() + 1)[0] == seq!['"'][0]);
    }
    lemma_parse_string_rt(x, s, i + 1);
}

/// An encoded boolean parses back to its value.
proof fn lemma_parse_bool_rt(b: bool, s: Seq<char>, i: int)
    requires
        0 <= i,
        i + bool_chars(b).len() <= s.len(),
        s.subrange(i, i + bool_chars(b).len()) == bool_chars(b),
    ensures
        parse_bool(s, i) == Some((b, i + bool_chars(b).len())),
{
    assert forall|m: int| 0 <= m < bool_chars(b).len() implies s[i + m] == bool_chars(b)[m] by {
        assert(s.subrange(i, i + bool_chars(b).len())[m] == bool_chars(b)[m]);
    }
    if b {
        lemma_parse_literal_at(s, i, bool_chars(true));
    } else {
        assert(parse_literal(s, i, bool_chars(true)) is None) by {
            if i + 4 <= s.len() && s.subrange(i, i + 4) == bool_chars(true) {
                assert(s.subrange(i, i + 4)[0] == 't');
                assert(s[i] == 'f');
            }
        }
        lemma_parse_literal_at(s, i, bool_chars(false));
    }
}

/// A record's encoding is never empty.
proof fn lemma_encode_entry_len(e: EntryView)
    ensures
        encode_entry(e).len() > 0,
{
}

/// An encoded record at a position parses back to its entry.
#[verifier::rlimit(100)]
proof fn lemma_parse_entry_rt(e: EntryView, s: Seq<char>, i: int)
    requires
        0 <= i,
        i + encode_entry(e).len() <= s.len(),
        s.subrange(i, i + encode_entry(e).len()) == encode_entry(e),
    ensures
        parse_entry(s, i) == Some((e, i + encode_entry(e).len())),
        encode_entry(e).len() > 0,
{
    let p1 = name_label();
    let p2 = quoted(e.name);
    let p3 = path_label();
    let p4 = quoted(e.path);
    let p5 = dir_label();
    let p6 = bool_chars(e.is_directory);
    let p7 = parent_label();
    let p8 = quoted(e.parent_folder);
    let p9 = seq!['}'];
    let whole = encode_entry(e);
    assert(whole =~= p1 + (p2 + (p3 + (p4 + (p5 + (p6 + (p7 + (p8 + p9))))))));
    let i1 = i + p1.len();
    lemma_split_at(s, i, p1, p2 + (p3 + (p4 + (p5 + (p6 + (p7 + (p8 + p9)))))));
    let i2 = i1 + p2.len();
    lemma_split_at(s, i1, p2, p3 + (p4 + (p5 + (p6 + (p7 + (p8 + p9))))));
    let i3 = i2 + p3.len();
    lemma_split_at(s, i2, p3, p4 + (p5 + (p6 + (p7 + (p8 + p9)))));
    let i4 = i3 + p4.len();
    lemma_split_at(s, i3, p4, p5 + (p6 + (p7 + (p8 + p9))));
    let i5 = i4 + p5.len();
    lemma_split_at(s, i4, p5, p6 + (p7 + (p8 + p9)));
    let i6 = i5 + p6.len();
    lemma_split_at(s, i5, p6, p7 + (p8 + p9));
    let i7 = i6 + p7.len();
    lemma_split_at(s, i6, p7, p8 + p9);
    let i8 = i7 + p8.len();
    lemma_split_at(s, i7, p8, p9);
    lemma_parse_literal_at(s, i, p1);
    lemma_parse_quoted_rt(e.name, s, i1);
    lemma_parse_literal_at(s, i2, p3);
    lemma_parse_quoted_rt(e.path, s, i3);
    lemma_parse_literal_at(s, i4, p5);
    lemma_parse_bool_rt(e.is_directory, s, i5);
    lemma_parse_literal_at(s, i6, p7);
    lemma_parse_quoted_rt(e.parent_folder, s, i7);
    lemma_parse_literal_at(s, i8, p9);
}

/// An encoded non-empty list followed by anything but a comma parses
/// back to its entries.
proof fn lemma_parse_list_rt(es: Seq<EntryView>, s: Seq<char>, i: int)
    requires
        es.len() >= 1,
        0 <= i,
        i + encode_list(es).len() < s.len(),
        s.subrange(i, i + encode_list(es).len()) == encode_list(es),
        s[i + encode_list(es).len()] != ',',
    ensures
        parse_list(s, i) == Some((es, i + encode_list(es).len())),
    decreases es.len(),
{
    if es.len() == 1 {
        lemma_parse_entry_rt(es[0], s, i);
        let k = i + encode_entry(es[0]).len();
        assert(s[k] != ',');
        assert(seq![es[0]] =~= es);
    } else {
        let e0 = encode_entry(es[0]);
        let rest = es.drop_first();
        let encr = encode_list(rest);
        assert(encode_list(es) =~= e0 + (seq![','] + encr));
        lemma_split_at(s, i, e0, seq![','] + encr);
        lemma_split_at(s, i + e0.len(), seq![','], encr);
        lemma_parse_entry_rt(es[0], s, i);
        let k = i + e0.len();
        assert(s[k] == ',') by {
            assert(s.subrange(k, k + 1)[0] == seq![','][0]);
        }
        lemma_parse_list_rt(rest, s, k + 1);
        assert(parse_list(s, i) == Some((seq![es[0]] + rest, i + encode_list(es).len())));
        assert(seq![es[0]] + rest =~= es);
    }
}

/// The round trip: a persisted document decodes to exactly the entries
/// it was encoded from — the same count, the same records, in order.
#[verifier::rlimit(50)]
pub proof fn lemma_decode_encode(es: Seq<EntryView>)
    ensures
        decode_index_spec(encode_index_spec(es)) == Some(es),
{
    let s = encode_index_spec(es);
    let body = encode_list(es);
    assert(s =~= seq!['['] + (body + seq![']']));
    assert(s.len() == 2 + body.len());
    assert(s.subrange(0, 1 + body.len() as int + 1) =~= s);
    lemma_split_at(s, 0, seq!['['], body + seq![']']);
    lemma_split_at(s, 1, body, seq![']']);
    assert(s[0] == '[') by {
        assert(s.subrange(0, 1)[0] == seq!['['][0]);
    }
    assert(s[1 + body.len() as int] == ']') by {
        assert(s.subrange(1 + body.len() as int, 2 + body.len() as int)[0] == seq![']'][0]);
    }
    if es.len() == 0 {
        assert(body.len() == 0);
        assert(s.len() == 2);
        assert(decode_index_spec(s) == Some(es)) by {
            assert(es =~= Seq::<EntryView>::empty());
        }
    } else {
        lemma_encode_entry_len(es[0]);
        assert(body.len() > 0);
        assert(s.len() > 2);
        lemma_parse_list_rt(es, s, 1);
    }
}

} // verus!
