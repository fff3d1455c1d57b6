//! Reader for the line-oriented conformance-fixture text format:
//! `[XFAIL ]input[ base][ s:…][ u:…][ pass:…][ h:…][ port:…][ p:…][ q:…][ f:…]`,
//! with the backslash escapes `\\ \n \r \s \t \f \uXXXX`. It feeds the test
//! harness and is no runtime interface of the URL library itself.
//!
//! `unescape` is exact against [`unescape_spec`]; `parse_test_data` returns
//! one [`Test`] per relevant line (nonempty, no `#` comment), an empty-string
//! base standing in for the previous line's base, and passes over malformed
//! fields, which the format does not produce.

use vstd::prelude::*;
use crate::strutil;

verus! {

/// Index of the first occurrence of `c`, or -1.
pub open spec fn find_char(s: Seq<char>, c: char) -> int
    decreases s.len(),
{
    if s.len() == 0 {
        -1
    } else if s[0] == c {
        0
    } else {
        let r = find_char(s.skip(1), c);
        if r < 0 {
            -1
        } else {
            r + 1
        }
    }
}

proof fn lemma_find_char_none(s: Seq<char>, c: char)
    requires
        forall|k: int| 0 <= k < s.len() ==> s[k] != c,
    ensures
        find_char(s, c) == -1,
    decreases s.len(),
{
    if s.len() > 0 {
        assert(forall|k: int| 0 <= k < s.skip(1).len() ==> s.skip(1)[k] == s[k + 1]);
        lemma_find_char_none(s.skip(1), c);
    }
}

proof fn lemma_find_char_at(s: Seq<char>, c: char, j: int)
    requires
        0 <= j < s.len(),
        s[j] == c,
        forall|k: int| 0 <= k < j ==> s[k] != c,
    ensures
        find_char(s, c) == j,
    decreases s.len(),
{
    if j > 0 {
        assert(forall|k: int| 0 <= k < s.skip(1).len() ==> s.skip(1)[k] == s[k + 1]);
        lemma_find_char_at(s.skip(1), c, j - 1);
    }
}

/// A line with its trailing carriage return dropped.
pub open spec fn strip_cr(l: Seq<char>) -> Seq<char> {
    if l.len() > 0 && l[l.len() - 1] == '\r' {
        l.take(l.len() - 1)
    } else {
        l
    }
}

/// A line the reader turns into a test: nonempty and no comment.
pub open spec fn line_relevant(l: Seq<char>) -> bool {
    l.len() > 0 && l[0] != '#'
}

/// The lines the reader turns into tests, in order.
pub open spec fn relevant_lines(s: Seq<char>) -> Seq<Seq<char>>
    decreases s.len(),
{
    let i = find_char(s, '\n');
    if 0 <= i < s.len() {
        (if line_relevant(strip_cr(s.take(i))) {
            seq![strip_cr(s.take(i))]
        } else {
            Seq::empty()
        }) + relevant_lines(s.skip(i + 1))
    } else {
        if line_relevant(strip_cr(s)) {
            seq![strip_cr(s)]
        } else {
            Seq::empty()
        }
    }
}

/// A line split on single spaces: separators vanish, empty pieces stay.
pub open spec fn split_sp(l: Seq<char>) -> Seq<Seq<char>>
    decreases l.len(),
{
    let i = find_char(l, ' ');
    if 0 <= i < l.len() {
        seq![l.take(i)] + split_sp(l.skip(i + 1))
    } else {
        seq![l]
    }
}

/// A field unescaped, or kept empty when its escapes are malformed (which
/// the fixture format does not produce).
pub open spec fn lenient_unescape(p: Seq<char>) -> Seq<char> {
    if wf_escaped(p) {
        unescape_spec(p)
    } else {
        Seq::empty()
    }
}

/// What one test holds of its line: the `XFAIL` marker sets
/// `expected_failure`, the next token unescapes to the input, and the token
/// after that to the base — absent or empty, the previous base is kept.
pub open spec fn line_post(t: &Test, line: Seq<char>, prev_base: Seq<char>) -> bool {
    let ps = split_sp(line);
    let xf = ps.len() > 0 && ps[0] == "XFAIL"@;
    let ii: int = if xf {
        1
    } else {
        0
    };
    &&& t.expected_failure == xf
    &&& t.input@ == (if ii < ps.len() {
        lenient_unescape(ps[ii])
    } else {
        Seq::<char>::empty()
    })
    &&& t.base@ == (if ii + 1 < ps.len() && ps[ii + 1].len() > 0 {
        lenient_unescape(ps[ii + 1])
    } else {
        prev_base
    })
}

pub open spec fn is_hex_char(c: char) -> bool {
    (0x30 <= (c as u32) <= 0x39) || (0x41 <= (c as u32) <= 0x46) || (0x61 <= (c as u32) <= 0x66)
}

pub open spec fn hex_char_val(c: char) -> u32
    recommends
        is_hex_char(c),
{
    let u = c as u32;
    if 0x30 <= u <= 0x39 {
        (u - 0x30) as u32
    } else if 0x41 <= u <= 0x46 {
        (u - 0x41 + 10) as u32
    } else {
        (u - 0x61 + 10) as u32
    }
}

pub open spec fn esc_is_simple(c: char) -> bool {
    c == '\\' || c == 'n' || c == 'r' || c == 's' || c == 't' || c == 'f'
}

/// The character a simple escape stands for.
pub open spec fn esc_char(c: char) -> char
    recommends
        esc_is_simple(c),
{
    if c == '\\' {
        '\\'
    } else if c == 'n' {
        '\n'
    } else if c == 'r' {
        '\r'
    } else if c == 's' {
        ' '
    } else if c == 't' {
        '\t'
    } else {
        '\u{c}'
    }
}

/// The code of a `\uXXXX` escape whose `u` stands at `i - 1`.
pub open spec fn u_escape_val(s: Seq<char>, i: int) -> u32
    recommends
        0 <= i && i + 4 <= s.len(),
{
    (hex_char_val(s[i]) * 0x1000 + hex_char_val(s[i + 1]) * 0x100 + hex_char_val(s[i + 2]) * 0x10
        + hex_char_val(s[i + 3])) as u32
}

pub open spec fn is_scalar_value(v: u32) -> bool {
    v < 0xD800 || (0xE000 <= v <= 0x10FFFF)
}

/// Well-formed escaped text: every `\` starts a known escape, and a `\u`
/// escape carries four hex digits naming a Unicode scalar.
pub open spec fn wf_escaped(s: Seq<char>) -> bool
    decreases s.len(),
{
    if s.len() == 0 {
        true
    } else if s[0] != '\\' {
        wf_escaped(s.skip(1))
    } else if s.len() >= 2 && esc_is_simple(s[1]) {
        wf_escaped(s.skip(2))
    } else if s.len() >= 6 && s[1] == 'u' && is_hex_char(s[2]) && is_hex_char(s[3]) && is_hex_char(
        s[4],
    ) && is_hex_char(s[5]) && is_scalar_value(u_escape_val(s, 2)) {
        wf_escaped(s.skip(6))
    } else {
        false
    }
}

/// The text with its escapes replaced.
pub open spec fn unescape_spec(s: Seq<char>) -> Seq<char>
    recommends
        wf_escaped(s),
    decreases s.len(),
{
    if s.len() == 0 {
        Seq::empty()
    } else if s[0] != '\\' {
        seq![s[0]] + unescape_spec(s.skip(1))
    } else if s.len() >= 2 && esc_is_simple(s[1]) {
        seq![esc_char(s[1])] + unescape_spec(s.skip(2))
    } else if s.len() >= 6 && s[1] == 'u' && is_hex_char(s[2]) && is_hex_char(s[3]) && is_hex_char(
        s[4],
    ) && is_hex_char(s[5]) && is_scalar_value(u_escape_val(s, 2)) {
        seq![(u_escape_val(s, 2) as char)] + unescape_spec(s.skip(6))
    } else {
        Seq::empty()
    }
}

/// Relies on std's `char::from_u32`: it yields the character of exactly the
/// Unicode scalar values.
#[verifier::external_body]
fn char_from_u32(v: u32) -> (r: Option<char>)
    ensures
        match r {
            Some(c) => is_scalar_value(v) && v <= 0x10FFFF && c == (v as char),
            None => !(is_scalar_value(v) && v <= 0x10FFFF),
        },
{
    char::from_u32(v)
}

fn hex_char_value(c: char) -> (r: u32)
    requires
        is_hex_char(c),
    ensures
        r == hex_char_val(c),
        r < 16,
{
    let u = c as u32;
    if 0x30 <= u && u <= 0x39 {
        u - 0x30
    } else if 0x41 <= u && u <= 0x46 {
        u - 0x41 + 10
    } else {
        u - 0x61 + 10
    }
}

fn is_hex_char_exec(c: char) -> (r: bool)
    ensures
        r == is_hex_char(c),
{
    let u = c as u32;
    (0x30 <= u && u <= 0x39) || (0x41 <= u && u <= 0x46) || (0x61 <= u && u <= 0x66)
}

/// Whether the text's escapes are all well formed.
fn escapes_ok(cs: &[char]) -> (r: bool)
    ensures
        r == wf_escaped(cs@),
{
    let n = cs.len();
    let mut i: usize = 0;
    proof {
        assert(cs@.skip(0) =~= cs@);
    }
    while i < n
        invariant
            i <= n == cs@.len(),
            wf_escaped(cs@) == wf_escaped(cs@.skip(i as int)),
        decreases n - i,
    {
        let ghost rest = cs@.skip(i as int);
        proof {
            assert(rest[0] == cs@[i as int]);
        }
        if cs[i] != '\\' {
            proof {
                assert(rest.skip(1) =~= cs@.skip(i as int + 1));
            }
            i += 1;
        } else if i + 1 < n && (cs[i + 1] == '\\' || cs[i + 1] == 'n' || cs[i + 1] == 'r'
            || cs[i + 1] == 's' || cs[i + 1] == 't' || cs[i + 1] == 'f') {
            proof {
                assert(rest[1] == cs@[i as int + 1]);
                assert(rest.skip(2) =~= cs@.skip(i as int + 2));
            }
            i += 2;
        } else if n - i > 5 && cs[i + 1] == 'u' && is_hex_char_exec(cs[i + 2]) && is_hex_char_exec(
            cs[i + 3],
        ) && is_hex_char_exec(cs[i + 4]) && is_hex_char_exec(cs[i + 5]) {
            let v = hex_char_value(cs[i + 2]) * 0x1000 + hex_char_value(cs[i + 3]) * 0x100
                + hex_char_value(cs[i + 4]) * 0x10 + hex_char_value(cs[i + 5]);
            proof {
                assert(rest[1] == cs@[i as int + 1] && rest[2] == cs@[i as int + 2] && rest[3]
                    == cs@[i as int + 3] && rest[4] == cs@[i as int + 4] && rest[5] == cs@[i as int
                    + 5]);
                assert(v == u_escape_val(rest, 2));
                assert(rest.skip(6) =~= cs@.skip(i as int + 6));
            }
            if !(v < 0xD800 || 0xE000 <= v) {
                return false;
            }
            i += 6;
        } else {
            proof {
                if rest.len() >= 2 {
                    assert(rest[1] == cs@[i as int + 1]);
                }
                if rest.len() >= 6 {
                    assert(rest[2] == cs@[i as int + 2] && rest[3] == cs@[i as int + 3] && rest[4]
                        == cs@[i as int + 4] && rest[5] == cs@[i as int + 5]);
                }
            }
            return false;
        }
    }
    proof {
        assert(cs@.skip(n as int) =~= Seq::<char>::empty());
    }
    true
}

fn unescape_chars(cs: &[char]) -> (out: Vec<char>)
    requires
        wf_escaped(cs@),
    ensures
        out@ == unescape_spec(cs@),
{
    let n = cs.len();
    let mut out: Vec<char> = Vec::new();
    let mut i: usize = 0;
    proof {
        assert(cs@.skip(0) =~= cs@);
    }
    while i < n
        invariant
            i <= n == cs@.len(),
            wf_escaped(cs@.skip(i as int)),
            unescape_spec(cs@) == out@ + unescape_spec(cs@.skip(i as int)),
        decreases n - i,
    {
        let ghost rest = cs@.skip(i as int);
        let ghost pre = out@;
        proof {
            assert(rest[0] == cs@[i as int]);
        }
        let c = cs[i];
        if c != '\\' {
            out.push(c);
            proof {
                assert(rest.skip(1) =~= cs@.skip(i as int + 1));
                assert(out@ =~= pre + seq![rest[0]]);
            }
            i += 1;
        } else {
            proof {
                assert(rest.len() >= 2);
                assert(rest[1] == cs@[i as int + 1]);
            }
            let e = cs[i + 1];
            if e == 'u' {
                proof {
                    assert(rest.len() >= 6);
                    assert(rest[2] == cs@[i as int + 2] && rest[3] == cs@[i as int + 3] && rest[4]
                        == cs@[i as int + 4] && rest[5] == cs@[i as int + 5]);
                    assert(rest.skip(6) =~= cs@.skip(i as int + 6));
                }
                let v = hex_char_value(cs[i + 2]) * 0x1000 + hex_char_value(cs[i + 3]) * 0x100
                    + hex_char_value(cs[i + 4]) * 0x10 + hex_char_value(cs[i + 5]);
                proof {
                    assert(v == u_escape_val(rest, 2));
                }
                match char_from_u32(v) {
                    Some(ch) => {
                        out.push(ch);
                        proof {
                            assert(out@ =~= pre + seq![(u_escape_val(rest, 2) as char)]);
                        }
                    },
                    None => {
                        proof {
                            assert(false);
                        }
                    },
                }
                i += 6;
            } else {
                proof {
                    assert(rest.skip(2) =~= cs@.skip(i as int + 2));
                }
                let mapped: char = if e == '\\' {
                    '\\'
                } else if e == 'n' {
                    '\n'
                } else if e == 'r' {
                    '\r'
                } else if e == 's' {
                    ' '
                } else if e == 't' {
                    '\t'
                } else {
                    '\u{c}'
                };
                proof {
                    assert(esc_is_simple(rest[1]));
                    assert(mapped == esc_char(rest[1]));
                }
                out.push(mapped);
                proof {
                    assert(out@ =~= pre + seq![esc_char(rest[1])]);
                }
                i += 2;
            }
        }
    }
    proof {
        assert(cs@.skip(n as int) =~= Seq::<char>::empty());
        assert(out@ + unescape_spec(Seq::empty()) =~= out@);
    }
    out
}

/// Replace the fixture format's backslash escapes.
pub fn unescape(input: &str) -> (r: String)
    requires
        wf_escaped(input@),
    ensures
        r@ == unescape_spec(input@),
{
    let cs = strutil::chars_of(input);
    let out = unescape_chars(cs.as_slice());
    strutil::string_from_chars(&out)
}

/// One conformance expectation: the input, the base it is parsed against,
/// and the URL parts the parse should produce, or an expected failure.
#[derive(Clone, Debug, PartialEq, Eq)]
pub struct Test {
    pub input: String,
    pub base: String,
    pub scheme: Option<String>,
    pub username: String,
    pub password: Option<String>,
    pub host: String,
    pub port: Option<u16>,
    pub path: Option<String>,
    pub query: Option<String>,
    pub fragment: Option<String>,
    pub expected_failure: bool,
}

fn sub_chars(s: &[char], from: usize, to: usize) -> (out: Vec<char>)
    requires
        from <= to <= s@.len(),
    ensures
        out@ == s@.subrange(from as int, to as int),
{
    let mut out: Vec<char> = Vec::new();
    let mut i: usize = from;
    while i < to
        invariant
            from <= i <= to <= s@.len(),
            out@ =~= s@.subrange(from as int, i as int),
        decreases to - i,
    {
        out.push(s[i]);
        proof {
            assert(out@ =~= s@.subrange(from as int, i as int + 1));
        }
        i += 1;
    }
    out
}

/// Unescape a field, or keep nothing of a malformed one.
fn unescape_lenient(p: &[char]) -> (r: String)
    ensures
        r@ == lenient_unescape(p@),
{
    if escapes_ok(p) {
        let out = unescape_chars(p);
        strutil::string_from_chars(&out)
    } else {
        String::new()
    }
}

fn split_spaces(line: &[char]) -> (pieces: Vec<Vec<char>>)
    ensures
        pieces@.map_values(|p: Vec<char>| p@) == split_sp(line@),
        pieces@.len() >= 1,
{
    let n = line.len();
    let mut pieces: Vec<Vec<char>> = Vec::new();
    let mut pos: usize = 0;
    proof {
        assert(line@.skip(0) =~= line@);
        assert(pieces@.map_values(|p: Vec<char>| p@) =~= Seq::<Seq<char>>::empty());
    }
    loop
        invariant
            pos <= n == line@.len(),
            split_sp(line@) == pieces@.map_values(|p: Vec<char>| p@) + split_sp(
                line@.skip(pos as int),
            ),
        decreases n - pos,
    {
        let ghost rest = line@.skip(pos as int);
        let ghost pre = pieces@.map_values(|p: Vec<char>| p@);
        let mut j = pos;
        while j < n && line[j] != ' '
            invariant
                pos <= j <= n == line@.len(),
                forall|k: int| pos <= k < j ==> line@[k] != ' ',
            decreases n - j,
        {
            j += 1;
        }
        let piece = sub_chars(line, pos, j);
        pieces.push(piece);
        proof {
            assert(forall|k: int| 0 <= k < rest.len() ==> rest[k] == line@[pos + k]);
            if j < n {
                lemma_find_char_at(rest, ' ', j - pos as int);
                assert(rest.take(j - pos as int) =~= line@.subrange(pos as int, j as int));
                assert(rest.skip(j - pos as int + 1) =~= line@.skip(j as int + 1));
            } else {
                lemma_find_char_none(rest, ' ');
                assert(rest =~= line@.subrange(pos as int, j as int));
            }
            assert(pieces@.map_values(|p: Vec<char>| p@) =~= pre + seq![
                line@.subrange(pos as int, j as int),
            ]);
        }
        if j == n {
            proof {
                assert(split_sp(rest) =~= seq![rest]);
            }
            return pieces;
        }
        pos = j + 1;
    }
}

fn parse_port_field(p: &[char]) -> Option<u16> {
    if p.len() == 0 {
        return None;
    }
    let mut acc: u32 = 0;
    let mut i: usize = 0;
    while i < p.len()
        invariant
            i <= p@.len(),
            acc <= 65535,
        decreases p@.len() - i,
    {
        let u = p[i] as u32;
        if !(0x30 <= u && u <= 0x39) {
            return None;
        }
        acc = acc * 10 + (u - 0x30);
        if acc > 65535 {
            return None;
        }
        i += 1;
    }
    Some(acc as u16)
}

fn is_xfail(p: &[char]) -> (r: bool)
    ensures
        r == (p@ == "XFAIL"@),
{
    proof {
        reveal_strlit("XFAIL");
    }
    let r = p.len() == 5 && p[0] == 'X' && p[1] == 'F' && p[2] == 'A' && p[3] == 'I' && p[4]
        == 'L';
    proof {
        if r {
            assert(p@ =~= "XFAIL"@);
        }
    }
    r
}

/// Read one relevant fixture line.
fn parse_line(line: &[char], prev_base: &String) -> (r: Test)
    ensures
        line_post(&r, line@, prev_base@),
{
    let pieces = split_spaces(line);
    let ghost ps = split_sp(line@);
    let mut test = Test {
        input: String::new(),
        base: String::new(),
        scheme: None,
        username: String::new(),
        password: None,
        host: String::new(),
        port: None,
        path: None,
        query: None,
        fragment: None,
        expected_failure: false,
    };
    proof {
        assert(forall|j: int| 0 <= j < ps.len() ==> ps[j] == #[trigger] pieces@[j]@);
    }
    let mut idx: usize = 0;
    if pieces.len() > 0 && is_xfail(pieces[0].as_slice()) {
        test.expected_failure = true;
        idx = 1;
    }
    let ghost ii = idx as int;
    if idx < pieces.len() {
        test.input = unescape_lenient(pieces[idx].as_slice());
        idx += 1;
    }
    if idx < pieces.len() && pieces[idx].len() > 0 {
        test.base = unescape_lenient(pieces[idx].as_slice());
        idx += 1;
    } else {
        test.base = prev_base.clone();
    }
    proof {
        assert(line_post(&test, line@, prev_base@));
    }
    let mut k = idx;
    while k < pieces.len()
        invariant
            k <= pieces@.len(),
            line_post(&test, line@, prev_base@),
        decreases pieces@.len() - k,
    {
        let piece = pieces[k].as_slice();
        if piece.len() == 0 || piece[0] == '#' {
            k += 1;
            continue ;
        }
        // Split `key:value` at the first colon; a piece without one carries
        // nothing.
        let mut colon: usize = 0;
        let mut found = false;
        let mut m: usize = 0;
        while m < piece.len()
            invariant
                m <= piece@.len(),
                found ==> colon < piece@.len(),
            decreases piece@.len() - m,
        {
            if piece[m] == ':' {
                colon = m;
                found = true;
                break ;
            }
            m += 1;
        }
        if !found {
            k += 1;
            continue ;
        }
        let raw_value = sub_chars(piece, colon + 1, piece.len());
        let value = unescape_lenient(raw_value.as_slice());
        if colon == 1 {
            let key = piece[0];
            if key == 's' {
                test.scheme = Some(value);
            } else if key == 'u' {
                test.username = value;
            } else if key == 'h' {
                test.host = value;
            } else if key == 'p' {
                test.path = Some(value);
            } else if key == 'q' {
                test.query = Some(value);
            } else if key == 'f' {
                test.fragment = Some(value);
            }
        } else if colon == 4 && piece[0] == 'p' && piece[1] == 'a' && piece[2] == 's' && piece[3]
            == 's' {
            test.password = Some(value);
        } else if colon == 4 && piece[0] == 'p' && piece[1] == 'o' && piece[2] == 'r' && piece[3]
            == 't' {
            test.port = parse_port_field(raw_value.as_slice());
        }
        k += 1;
    }
    test
}

/// Read the whole fixture text: one test per relevant line — in order, each
/// holding what [`line_post`] states of its line — with an absent or empty
/// base field inheriting the previous test's base (an empty base before any
/// test).
pub fn parse_test_data(input: &str) -> (r: Vec<Test>)
    ensures
        r@.len() == relevant_lines(input@).len(),
        forall|j: int| 0 <= j < r@.len() ==> line_post(
            &r@[j],
            relevant_lines(input@)[j],
            if j == 0 {
                Seq::<char>::empty()
            } else {
                r@[j - 1].base@
            },
        ),
{
    let cs = strutil::chars_of(input);
    let b = cs.as_slice();
    let n = b.len();
    let mut tests: Vec<Test> = Vec::new();
    let mut prev_base = String::new();
    let mut pos: usize = 0;
    let ghost mut done: Seq<Seq<char>> = Seq::empty();
    proof {
        assert(b@.skip(0) =~= b@);
        assert(done + relevant_lines(b@) =~= relevant_lines(b@));
    }
    loop
        invariant
            pos <= n == b@.len(),
            b@ == input@,
            relevant_lines(input@) == done + relevant_lines(b@.skip(pos as int)),
            done.len() == tests@.len(),
            forall|j: int| 0 <= j < tests@.len() ==> line_post(
                &tests@[j],
                done[j],
                if j == 0 {
                    Seq::<char>::empty()
                } else {
                    tests@[j - 1].base@
                },
            ),
            prev_base@ == if tests@.len() == 0 {
                Seq::<char>::empty()
            } else {
                tests@[tests@.len() - 1].base@
            },
        decreases n - pos,
    {
        let ghost rest = b@.skip(pos as int);
        let mut j = pos;
        while j < n && b[j] != '\n'
            invariant
                pos <= j <= n == b@.len(),
                forall|k: int| pos <= k < j ==> b@[k] != '\n',
            decreases n - j,
        {
            j += 1;
        }
        let mut line = sub_chars(b, pos, j);
        proof {
            assert(forall|k: int| 0 <= k < rest.len() ==> rest[k] == b@[pos + k]);
            if j < n {
                lemma_find_char_at(rest, '\n', j - pos as int);
                assert(rest.take(j - pos as int) =~= b@.subrange(pos as int, j as int));
                assert(rest.skip(j - pos as int + 1) =~= b@.skip(j as int + 1));
            } else {
                lemma_find_char_none(rest, '\n');
                assert(rest =~= b@.subrange(pos as int, j as int));
            }
        }
        let ghost raw_line = b@.subrange(pos as int, j as int);
        if line.len() > 0 && line[line.len() - 1] == '\r' {
            let _cr = line.pop();
        }
        proof {
            assert(line@ =~= strip_cr(raw_line));
        }
        let ghost pre_tests = tests@;
        let ghost pre_done = done;
        if line.len() > 0 && line[0] != '#' {
            let t = parse_line(line.as_slice(), &prev_base);
            prev_base = t.base.clone();
            tests.push(t);
            proof {
                done = done.push(line@);
                assert(forall|j: int| 0 <= j < pre_tests.len() ==> tests@[j] == pre_tests[j]);
                assert(tests@[pre_tests.len() as int] == t);
            }
        }
        if j == n {
            proof {
                assert(relevant_lines(input@) =~= done);
            }
            return tests;
        }
        pos = j + 1;
    }
}

} // verus!
