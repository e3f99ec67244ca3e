//! The stats file format: a JSON object mapping extra-data keys to block
//! counts. The writer renders one entry per line, and the reader accepts
//! any whitespace layout; consumers treat the file as an unordered
//! mapping.

use vstd::prelude::*;

use vstd::string::StrSliceExecFns;

use crate::dates::digit_char;
use crate::text::string_push;

verus! {

/// The decimal rendering of `n`, most significant digit first.
pub open spec fn dec_str(n: nat) -> Seq<char>
    decreases n,
{
    if n < 10 {
        seq![digit_char(n as int)]
    } else {
        dec_str(n / 10).push(digit_char((n % 10) as int))
    }
}

/// The lowercase hex digit for `v` in `0..=15`.
pub open spec fn hex_digit(v: int) -> char {
    if v < 10 {
        digit_char(v)
    } else if v == 10 {
        'a'
    } else if v == 11 {
        'b'
    } else if v == 12 {
        'c'
    } else if v == 13 {
        'd'
    } else if v == 14 {
        'e'
    } else {
        'f'
    }
}

/// How one character is written inside a JSON string: quotes and
/// backslashes escaped, control characters as `\u00XX`, all else as is.
pub open spec fn esc_char(c: char) -> Seq<char> {
    if c == '"' {
        seq!['\\', '"']
    } else if c == '\\' {
        seq!['\\', '\\']
    } else if (c as u32) < 32 {
        seq!['\\', 'u', '0', '0', hex_digit(c as u32 as int / 16), hex_digit(c as u32 as int % 16)]
    } else {
        seq![c]
    }
}

/// How a key is written inside a JSON string.
pub open spec fn esc_str(s: Seq<char>) -> Seq<char>
    decreases s.len(),
{
    if s.len() == 0 {
        Seq::empty()
    } else {
        esc_char(s[0]) + esc_str(s.drop_first())
    }
}

/// One `"key": count` line, without indentation.
pub open spec fn entry_str(k: Seq<char>, v: u64) -> Seq<char> {
    seq!['"'] + esc_str(k) + seq!['"', ':', ' '] + dec_str(v as nat)
}

/// The indented entry lines, comma-separated.
pub open spec fn entries_str(ps: Seq<(Seq<char>, u64)>) -> Seq<char>
    decreases ps.len(),
{
    if ps.len() == 0 {
        Seq::empty()
    } else if ps.len() == 1 {
        seq![' ', ' '] + entry_str(ps[0].0, ps[0].1)
    } else {
        seq![' ', ' '] + entry_str(ps[0].0, ps[0].1) + seq![',', '\n'] + entries_str(
            ps.drop_first(),
        )
    }
}

/// The whole stats document for an ordered list of key/count pairs.
pub open spec fn stats_doc(ps: Seq<(Seq<char>, u64)>) -> Seq<char> {
    if ps.len() == 0 {
        seq!['{', '}']
    } else {
        seq!['{', '\n'] + entries_str(ps) + seq!['\n', '}']
    }
}

/// The digit character for `v` in `0..=9`.
fn digit_char_of(v: u64) -> (c: char)
    requires
        v <= 9,
    ensures
        c == digit_char(v as int),
{
    match v {
        0 => '0',
        1 => '1',
        2 => '2',
        3 => '3',
        4 => '4',
        5 => '5',
        6 => '6',
        7 => '7',
        8 => '8',
        _ => '9',
    }
}

/// The lowercase hex digit character for `v` in `0..=15`.
fn hex_digit_of(v: u32) -> (c: char)
    requires
        v <= 15,
    ensures
        c == hex_digit(v as int),
{
    match v {
        0 => '0',
        1 => '1',
        2 => '2',
        3 => '3',
        4 => '4',
        5 => '5',
        6 => '6',
        7 => '7',
        8 => '8',
        9 => '9',
        10 => 'a',
        11 => 'b',
        12 => 'c',
        13 => 'd',
        14 => 'e',
        _ => 'f',
    }
}

/// Appends the decimal rendering of `n`.
fn push_u64(s: &mut String, n: u64)
    ensures
        final(s)@ == old(s)@ + dec_str(n as nat),
{
    let mut rev: Vec<char> = Vec::new();
    let mut m: u64 = n;
    proof {
        assert(dec_str(n as nat) =~= dec_str(n as nat) + rev@.reverse());
    }
    while m >= 10
        invariant
            dec_str(n as nat) == dec_str(m as nat) + rev@.reverse(),
        decreases m,
    {
        let ghost rev0 = rev@;
        let d = m % 10;
        rev.push(digit_char_of(d));
        proof {
            assert(dec_str(m as nat) == dec_str((m / 10) as nat).push(digit_char((m % 10) as int)));
            assert(rev@.reverse() =~= seq![digit_char((m % 10) as int)] + rev0.reverse());
            assert(dec_str((m / 10) as nat) + rev@.reverse() =~= dec_str(m as nat) + rev0.reverse());
        }
        m = m / 10;
    }
    string_push(s, digit_char_of(m));
    let ghost base = s@;
    let ghost m0 = m;
    proof {
        assert(dec_str(m as nat) =~= seq![digit_char(m as int)]);
        assert(rev@.skip(rev@.len() as int).reverse() =~= Seq::<char>::empty());
        assert(base =~= base + rev@.skip(rev@.len() as int).reverse());
    }
    let mut i: usize = rev.len();
    while i > 0
        invariant
            0 <= i <= rev@.len(),
            s@ == base + rev@.skip(i as int).reverse(),
            base == old(s)@ + seq![digit_char(m0 as int)],
            dec_str(n as nat) == seq![digit_char(m0 as int)] + rev@.reverse(),
        decreases i,
    {
        i = i - 1;
        string_push(s, rev[i]);
        proof {
            assert(rev@.skip(i as int) =~= seq![rev@[i as int]] + rev@.skip(i + 1));
            assert(rev@.skip(i as int).reverse() =~= rev@.skip(i + 1).reverse().push(
                rev@[i as int],
            ));
        }
    }
    proof {
        assert(rev@.skip(0) =~= rev@);
        assert(s@ =~= old(s)@ + dec_str(n as nat));
    }
}

} // verus!

verus! {

/// Appends `k` in JSON string escaping.
fn push_escaped(s: &mut String, k: &str)
    ensures
        final(s)@ == old(s)@ + esc_str(k@),
{
    let len = k.unicode_len();
    let mut i: usize = 0;
    proof {
        assert(k@.skip(0) =~= k@);
    }
    while i < len
        invariant
            0 <= i <= len == k@.len(),
            old(s)@ + esc_str(k@) == s@ + esc_str(k@.skip(i as int)),
        decreases len - i,
    {
        let c = k.get_char(i);
        proof {
            assert(k@.skip(i as int)[0] == k@[i as int]);
            assert(k@.skip(i as int).drop_first() =~= k@.skip(i + 1));
        }
        let v = c as u32;
        if c == '"' {
            string_push(s, '\\');
            string_push(s, '"');
        } else if c == '\\' {
            string_push(s, '\\');
            string_push(s, '\\');
        } else if v < 32 {
            string_push(s, '\\');
            string_push(s, 'u');
            string_push(s, '0');
            string_push(s, '0');
            string_push(s, hex_digit_of(v / 16));
            string_push(s, hex_digit_of(v % 16));
        } else {
            string_push(s, c);
        }
        proof {
            assert(esc_str(k@.skip(i as int)) == esc_char(k@[i as int]) + esc_str(k@.skip(i + 1)));
            assert(old(s)@ + esc_str(k@) =~= s@ + esc_str(k@.skip(i + 1)));
        }
        i = i + 1;
    }
    proof {
        assert(k@.skip(len as int) =~= Seq::<char>::empty());
        assert(s@ =~= old(s)@ + esc_str(k@));
    }
}

/// Renders the pairs as the stats document, in the order given.
pub fn stats_to_json(pairs: &Vec<(String, u64)>) -> (r: String)
    ensures
        r@ == stats_doc(pairs@.map_values(|p: (String, u64)| (p.0@, p.1))),
{
    let ghost views = pairs@.map_values(|p: (String, u64)| (p.0@, p.1));
    let mut out = String::new();
    if pairs.len() == 0 {
        string_push(&mut out, '{');
        string_push(&mut out, '}');
        proof {
            assert(out@ =~= stats_doc(views));
        }
        return out;
    }
    string_push(&mut out, '{');
    string_push(&mut out, '\n');
    let mut i: usize = 0;
    proof {
        assert(views.skip(0) =~= views);
        assert(out@ =~= seq!['{', '\n']);
    }
    while i < pairs.len()
        invariant
            0 <= i < pairs@.len(),
            views == pairs@.map_values(|p: (String, u64)| (p.0@, p.1)),
            views.len() == pairs@.len(),
            seq!['{', '\n'] + entries_str(views) == out@ + entries_str(views.skip(i as int)),
        decreases pairs@.len() - i,
    {
        proof {
            assert(views.skip(i as int)[0] == views[i as int]);
            assert(views.skip(i as int).drop_first() =~= views.skip(i + 1));
            assert(views[i as int] == (pairs@[i as int].0@, pairs@[i as int].1));
        }
        string_push(&mut out, ' ');
        string_push(&mut out, ' ');
        string_push(&mut out, '"');
        push_escaped(&mut out, pairs[i].0.as_str());
        string_push(&mut out, '"');
        string_push(&mut out, ':');
        string_push(&mut out, ' ');
        push_u64(&mut out, pairs[i].1);
        if i + 1 < pairs.len() {
            string_push(&mut out, ',');
            string_push(&mut out, '\n');
            proof {
                assert(entries_str(views.skip(i as int)) == seq![' ', ' '] + entry_str(
                    views[i as int].0,
                    views[i as int].1,
                ) + seq![',', '\n'] + entries_str(views.skip(i + 1)));
                assert(seq!['{', '\n'] + entries_str(views) =~= out@ + entries_str(
                    views.skip(i + 1),
                ));
            }
            i = i + 1;
        } else {
            proof {
                assert(views.skip(i as int).len() == 1);
                assert(entries_str(views.skip(i as int)) == seq![' ', ' '] + entry_str(
                    views[i as int].0,
                    views[i as int].1,
                ));
                assert(entries_str(views.skip(i + 1)) =~= Seq::<char>::empty());
                assert(seq!['{', '\n'] + entries_str(views) =~= out@);
            }
            string_push(&mut out, '\n');
            string_push(&mut out, '}');
            proof {
                assert(out@ =~= (seq!['{', '\n'] + entries_str(views)) + seq!['\n', '}']);
                assert(out@ =~= stats_doc(views));
            }
            return out;
        }
    }
    proof {
        assert(false);
    }
    out
}

} // verus!

verus! {

/// JSON whitespace.
pub open spec fn is_json_ws(c: char) -> bool {
    c == ' ' || c == '\t' || c == '\n' || c == '\r'
}

/// First position at or after `i` that does not hold JSON whitespace.
pub open spec fn sp_ws(s: Seq<char>, i: int) -> int
    decreases s.len() - i,
{
    if 0 <= i < s.len() && is_json_ws(s[i]) {
        sp_ws(s, i + 1)
    } else {
        i
    }
}

/// Whether `c` is a hex digit, either case.
pub open spec fn is_hex_char(c: char) -> bool {
    (48 <= c as u32 <= 57) || (97 <= c as u32 <= 102) || (65 <= c as u32 <= 70)
}

/// Value of a hex digit.
pub open spec fn hex_val(c: char) -> int {
    if 48 <= c as u32 <= 57 {
        c as u32 - 48
    } else if 97 <= c as u32 <= 102 {
        c as u32 - 87
    } else {
        c as u32 - 55
    }
}

/// Reads a JSON string body starting after the opening quote: the decoded
/// content and the position after the closing quote, or nothing when the
/// text is not a valid JSON string.
pub open spec fn sp_string_body(s: Seq<char>, i: int) -> Option<(Seq<char>, int)>
    decreases s.len() - i,
{
    if i < 0 || i >= s.len() {
        None
    } else if s[i] == '"' {
        Some((Seq::empty(), i + 1))
    } else if s[i] == '\\' {
        if i + 2 > s.len() {
            None
        } else {
            let e = s[i + 1];
            if e == '"' || e == '\\' || e == '/' {
                match sp_string_body(s, i + 2) {
                    Some(t) => Some((seq![e] + t.0, t.1)),
                    None => None,
                }
            } else if e == 'b' || e == 'f' || e == 'n' || e == 'r' || e == 't' {
                let c = if e == 'b' {
                    8u32 as char
                } else if e == 'f' {
                    12u32 as char
                } else if e == 'n' {
                    '\n'
                } else if e == 'r' {
                    '\r'
                } else {
                    '\t'
                };
                match sp_string_body(s, i + 2) {
                    Some(t) => Some((seq![c] + t.0, t.1)),
                    None => None,
                }
            } else if e == 'u' {
                if i + 6 > s.len() {
                    None
                } else if is_hex_char(s[i + 2]) && is_hex_char(s[i + 3]) && is_hex_char(s[i + 4])
                    && is_hex_char(s[i + 5]) {
                    let v = hex_val(s[i + 2]) * 4096 + hex_val(s[i + 3]) * 256 + hex_val(s[i + 4])
                        * 16 + hex_val(s[i + 5]);
                    if 0xD800 <= v < 0xE000 {
                        None
                    } else {
                        match sp_string_body(s, i + 6) {
                            Some(t) => Some((seq![(v as u32) as char] + t.0, t.1)),
                            None => None,
                        }
                    }
                } else {
                    None
                }
            } else {
                None
            }
        }
    } else if (s[i] as u32) < 32 {
        None
    } else {
        match sp_string_body(s, i + 1) {
            Some(t) => Some((seq![s[i]] + t.0, t.1)),
            None => None,
        }
    }
}

/// A parsed string body ends after its opening position, within the text.
pub proof fn lemma_sp_string_bounds(s: Seq<char>, i: int)
    requires
        sp_string_body(s, i) is Some,
    ensures
        i < (sp_string_body(s, i)->0).1 <= s.len(),
    decreases s.len() - i,
{
    if 0 <= i < s.len() && s[i] != '"' {
        if s[i] == '\\' {
            let e = s[i + 1];
            if e == 'u' {
                lemma_sp_string_bounds(s, i + 6);
            } else {
                lemma_sp_string_bounds(s, i + 2);
            }
        } else {
            lemma_sp_string_bounds(s, i + 1);
        }
    }
}

/// Reads digits from `i`, folding them onto `acc`; yields the value and
/// the first position past the digits.
pub open spec fn sp_digits(s: Seq<char>, i: int, acc: nat) -> (nat, int)
    decreases s.len() - i,
{
    if 0 <= i < s.len() && crate::dates::is_digit_char(s[i]) {
        sp_digits(s, i + 1, acc * 10 + crate::dates::digit_val(s[i]) as nat)
    } else {
        (acc, i)
    }
}

/// The folded value can only grow, and the scan moves forward through the
/// text.
pub proof fn lemma_sp_digits_ge(s: Seq<char>, i: int, acc: nat)
    ensures
        sp_digits(s, i, acc).0 >= acc,
        sp_digits(s, i, acc).1 >= i,
        0 <= i <= s.len() ==> i <= sp_digits(s, i, acc).1 <= s.len(),
    decreases s.len() - i,
{
    if 0 <= i < s.len() && crate::dates::is_digit_char(s[i]) {
        lemma_sp_digits_ge(s, i + 1, acc * 10 + crate::dates::digit_val(s[i]) as nat);
    }
}

/// Reads an unsigned number at `i`; more than `u64::MAX` is refused.
pub open spec fn sp_u64(s: Seq<char>, i: int) -> Option<(u64, int)> {
    if 0 <= i < s.len() && crate::dates::is_digit_char(s[i]) {
        let r = sp_digits(s, i, 0);
        if r.0 <= u64::MAX {
            Some((r.0 as u64, r.1))
        } else {
            None
        }
    } else {
        None
    }
}

/// Reads the entry list of a stats object, starting at the opening quote
/// of the first key; yields the pairs in text order and the position
/// after the closing brace.
pub open spec fn sp_entries(s: Seq<char>, i: int) -> Option<(Seq<(Seq<char>, u64)>, int)>
    decreases s.len() - i,
{
    if !(0 <= i < s.len() && s[i] == '"') {
        None
    } else {
        match sp_string_body(s, i + 1) {
            None => None,
            Some(kt) => {
                let j2 = sp_ws(s, kt.1);
                if !(j2 < s.len() && s[j2] == ':') {
                    None
                } else {
                    let j3 = sp_ws(s, j2 + 1);
                    match sp_u64(s, j3) {
                        None => None,
                        Some(vt) => {
                            let j5 = sp_ws(s, vt.1);
                            if j5 < s.len() && s[j5] == ',' {
                                let j6 = sp_ws(s, j5 + 1);
                                if i < j6 <= s.len() {
                                    match sp_entries(s, j6) {
                                        None => None,
                                        Some(pt) => Some((seq![(kt.0, vt.0)] + pt.0, pt.1)),
                                    }
                                } else {
                                    None
                                }
                            } else if j5 < s.len() && s[j5] == '}' {
                                Some((seq![(kt.0, vt.0)], j5 + 1))
                            } else {
                                None
                            }
                        },
                    }
                }
            },
        }
    }
}

/// Reads a whole stats document: a JSON object of string keys and
/// unsigned counts, with nothing but whitespace around it.
pub open spec fn sp_stats(s: Seq<char>) -> Option<Seq<(Seq<char>, u64)>> {
    let i0 = sp_ws(s, 0);
    if !(i0 < s.len() && s[i0] == '{') {
        None
    } else {
        let i1 = sp_ws(s, i0 + 1);
        if i1 < s.len() && s[i1] == '}' {
            if sp_ws(s, i1 + 1) == s.len() {
                Some(Seq::empty())
            } else {
                None
            }
        } else {
            match sp_entries(s, i1) {
                None => None,
                Some(pt) => {
                    if sp_ws(s, pt.1) == s.len() {
                        Some(pt.0)
                    } else {
                        None
                    }
                },
            }
        }
    }
}

} // verus!

verus! {

/// The characters of a string slice.
fn str_to_chars(s: &str) -> (r: Vec<char>)
    ensures
        r@ == s@,
{
    let len = s.unicode_len();
    let mut r: Vec<char> = Vec::new();
    let mut i: usize = 0;
    while i < len
        invariant
            0 <= i <= len == s@.len(),
            r@ =~= s@.take(i as int),
        decreases len - i,
    {
        r.push(s.get_char(i));
        proof {
            assert(r@ =~= s@.take(i + 1));
        }
        i = i + 1;
    }
    proof {
        assert(s@.take(len as int) =~= s@);
    }
    r
}

/// Skips JSON whitespace from `i`.
fn ws_to(cs: &Vec<char>, i: usize) -> (r: usize)
    requires
        i <= cs@.len(),
    ensures
        r == sp_ws(cs@, i as int),
        i <= r <= cs@.len(),
{
    let mut j: usize = i;
    while j < cs.len() && (cs[j] == ' ' || cs[j] == '\t' || cs[j] == '\n' || cs[j] == '\r')
        invariant
            i <= j <= cs@.len(),
            sp_ws(cs@, i as int) == sp_ws(cs@, j as int),
        decreases cs@.len() - j,
    {
        j = j + 1;
    }
    j
}

/// The value of a hex digit character, if it is one.
fn hex_val_of(c: char) -> (r: Option<u32>)
    ensures
        (r is Some) == is_hex_char(c),
        r matches Some(v) ==> v == hex_val(c),
{
    let u = c as u32;
    if 48 <= u && u <= 57 {
        Some(u - 48)
    } else if 97 <= u && u <= 102 {
        Some(u - 87)
    } else if 65 <= u && u <= 70 {
        Some(u - 55)
    } else {
        None
    }
}

/// Decodes a JSON string body starting after the opening quote.
fn parse_string_body(cs: &Vec<char>, i: usize) -> (r: Option<(String, usize)>)
    requires
        i <= cs@.len(),
    ensures
        match r {
            Some(t) => sp_string_body(cs@, i as int) == Some((t.0@, t.1 as int)) && i < t.1
                <= cs@.len(),
            None => sp_string_body(cs@, i as int) is None,
        },
{
    let mut content = String::new();
    let mut cur: usize = i;
    loop
        invariant
            i <= cur <= cs@.len(),
            match sp_string_body(cs@, cur as int) {
                Some(t2) => sp_string_body(cs@, i as int) == Some((content@ + t2.0, t2.1)),
                None => sp_string_body(cs@, i as int) is None,
            },
        decreases cs@.len() - cur,
    {
        if cur >= cs.len() {
            return None;
        }
        let c = cs[cur];
        if c == '"' {
            proof {
                assert(sp_string_body(cs@, cur as int) == Some(
                    (Seq::<char>::empty(), cur + 1 as int),
                ));
                assert(content@ + Seq::<char>::empty() =~= content@);
            }
            return Some((content, cur + 1));
        }
        if c == '\\' {
            if cur + 1 >= cs.len() {
                return None;
            }
            let e = cs[cur + 1];
            if e == '"' || e == '\\' || e == '/' {
                let ghost c_old = content@;
                crate::text::string_push(&mut content, e);
                proof {
                    match sp_string_body(cs@, cur + 2) {
                        Some(t2) => {
                            assert(c_old + (seq![e] + t2.0) =~= content@ + t2.0);
                        },
                        None => {},
                    }
                }
                cur = cur + 2;
            } else if e == 'b' || e == 'f' || e == 'n' || e == 'r' || e == 't' {
                let d: char = if e == 'b' {
                    match crate::text::char_from_u32(8) {
                        Some(x) => x,
                        None => {
                            proof {
                                assert(false);
                            }
                            return None;
                        },
                    }
                } else if e == 'f' {
                    match crate::text::char_from_u32(12) {
                        Some(x) => x,
                        None => {
                            proof {
                                assert(false);
                            }
                            return None;
                        },
                    }
                } else if e == 'n' {
                    '\n'
                } else if e == 'r' {
                    '\r'
                } else {
                    '\t'
                };
                proof {
                    vstd::utf8::char_u32_cast(d, d as u32);
                }
                let ghost c_old = content@;
                crate::text::string_push(&mut content, d);
                proof {
                    match sp_string_body(cs@, cur + 2) {
                        Some(t2) => {
                            assert(c_old + (seq![d] + t2.0) =~= content@ + t2.0);
                        },
                        None => {},
                    }
                }
                cur = cur + 2;
            } else if e == 'u' {
                if cs.len() - cur < 6 {
                    return None;
                }
                let h0 = match hex_val_of(cs[cur + 2]) {
                    Some(v) => v,
                    None => {
                        return None;
                    },
                };
                let h1 = match hex_val_of(cs[cur + 3]) {
                    Some(v) => v,
                    None => {
                        return None;
                    },
                };
                let h2 = match hex_val_of(cs[cur + 4]) {
                    Some(v) => v,
                    None => {
                        return None;
                    },
                };
                let h3 = match hex_val_of(cs[cur + 5]) {
                    Some(v) => v,
                    None => {
                        return None;
                    },
                };
                let v = h0 * 4096 + h1 * 256 + h2 * 16 + h3;
                if 0xD800 <= v && v < 0xE000 {
                    return None;
                }
                let d = match crate::text::char_from_u32(v) {
                    Some(x) => x,
                    None => {
                        proof {
                            assert(false);
                        }
                        return None;
                    },
                };
                proof {
                    vstd::utf8::char_u32_cast(d, d as u32);
                }
                let ghost c_old = content@;
                crate::text::string_push(&mut content, d);
                proof {
                    match sp_string_body(cs@, cur + 6) {
                        Some(t2) => {
                            assert(c_old + (seq![d] + t2.0) =~= content@ + t2.0);
                        },
                        None => {},
                    }
                }
                cur = cur + 6;
            } else {
                return None;
            }
        } else if (c as u32) < 32 {
            return None;
        } else {
            let ghost c_old = content@;
            crate::text::string_push(&mut content, c);
            proof {
                match sp_string_body(cs@, cur + 1) {
                    Some(t2) => {
                        assert(c_old + (seq![c] + t2.0) =~= content@ + t2.0);
                    },
                    None => {},
                }
            }
            cur = cur + 1;
        }
    }
}

/// Reads an unsigned count at `i`.
fn parse_u64_at(cs: &Vec<char>, i: usize) -> (r: Option<(u64, usize)>)
    requires
        i <= cs@.len(),
    ensures
        match r {
            Some(t) => sp_u64(cs@, i as int) == Some((t.0, t.1 as int)) && i < t.1 <= cs@.len(),
            None => sp_u64(cs@, i as int) is None,
        },
{
    if i >= cs.len() {
        return None;
    }
    let c0 = cs[i] as u32;
    if c0 < 48 || c0 > 57 {
        return None;
    }
    let mut acc: u64 = 0;
    let mut cur: usize = i;
    while cur < cs.len() && 48 <= cs[cur] as u32 && cs[cur] as u32 <= 57
        invariant
            i <= cur <= cs@.len(),
            sp_digits(cs@, i as int, 0) == sp_digits(cs@, cur as int, acc as nat),
        decreases cs@.len() - cur,
    {
        let d = cs[cur] as u32 - 48;
        let next = match acc.checked_mul(10) {
            Some(x) => x.checked_add(d as u64),
            None => None,
        };
        match next {
            Some(x) => {
                acc = x;
            },
            None => {
                proof {
                    lemma_sp_digits_ge(
                        cs@,
                        cur + 1,
                        (acc * 10 + crate::dates::digit_val(cs@[cur as int]) as nat) as nat,
                    );
                    assert(sp_digits(cs@, i as int, 0).0 > u64::MAX);
                }
                return None;
            },
        }
        cur = cur + 1;
    }
    Some((acc, cur))
}

} // verus!

verus! {

/// Reads a stats document. The result maps each key to the count its last
/// occurrence gives; a malformed document is a parse failure.
pub fn parse_stats_json(s: &str) -> (r: Result<crate::flatmap::FlatAggregate, crate::StatsError>)
    ensures
        match sp_stats(s@) {
            Some(ps) => r matches Ok(m) && m.wf() && m@ == crate::flatmap::map_of(ps),
            None => r matches Err(e) && e == crate::StatsError::JsonParseFailure,
        },
{
    let cs = str_to_chars(s);
    match parse_pairs(&cs) {
        None => Err(crate::StatsError::JsonParseFailure),
        Some(pairs) => {
            let ghost ps = sp_stats(s@)->0;
            let mut m = crate::flatmap::FlatAggregate::new();
            let mut i: usize = 0;
            proof {
                assert(pairs@.map_values(|p: (String, u64)| (p.0@, p.1)).take(0) =~= Seq::<
                    (Seq<char>, u64),
                >::empty());
                assert(crate::flatmap::map_of(ps.take(0)) =~= Map::<Seq<char>, u64>::empty());
            }
            while i < pairs.len()
                invariant
                    0 <= i <= pairs@.len(),
                    m.wf(),
                    ps == pairs@.map_values(|p: (String, u64)| (p.0@, p.1)),
                    m@ == crate::flatmap::map_of(ps.take(i as int)),
                decreases pairs@.len() - i,
            {
                m.put(pairs[i].0.as_str(), pairs[i].1);
                proof {
                    assert(ps.take(i + 1).drop_last() =~= ps.take(i as int));
                    assert(ps.take(i + 1).last() == (pairs@[i as int].0@, pairs@[i as int].1));
                }
                i = i + 1;
            }
            proof {
                assert(ps.take(ps.len() as int) =~= ps);
            }
            Ok(m)
        },
    }
}

/// Reads the document into its pair list, in text order.
fn parse_pairs(cs: &Vec<char>) -> (r: Option<Vec<(String, u64)>>)
    ensures
        match r {
            Some(pairs) => sp_stats(cs@) == Some(
                pairs@.map_values(|p: (String, u64)| (p.0@, p.1)),
            ),
            None => sp_stats(cs@) is None,
        },
{
    broadcast use vstd::seq_lib::group_to_multiset_ensures;

    let i0 = ws_to(cs, 0);
    if i0 >= cs.len() || cs[i0] != '{' {
        return None;
    }
    let i1 = ws_to(cs, i0 + 1);
    if i1 < cs.len() && cs[i1] == '}' {
        let i2 = ws_to(cs, i1 + 1);
        if i2 == cs.len() {
            let pairs: Vec<(String, u64)> = Vec::new();
            proof {
                assert(pairs@.map_values(|p: (String, u64)| (p.0@, p.1)) =~= Seq::<
                    (Seq<char>, u64),
                >::empty());
            }
            return Some(pairs);
        } else {
            return None;
        }
    }
    // entry list
    let mut pairs: Vec<(String, u64)> = Vec::new();
    let mut cur: usize = i1;
    loop
        invariant
            0 <= cur <= cs@.len(),
            i1 <= cs@.len(),
            sp_ws(cs@, 0) == i0 < cs@.len() && cs@[i0 as int] == '{',
            sp_ws(cs@, i0 + 1) == i1,
            !(i1 < cs@.len() && cs@[i1 as int] == '}'),
            match sp_entries(cs@, cur as int) {
                Some(pt) => sp_entries(cs@, i1 as int) == Some(
                    (pairs@.map_values(|p: (String, u64)| (p.0@, p.1)) + pt.0, pt.1),
                ),
                None => sp_entries(cs@, i1 as int) is None,
            },
        decreases cs@.len() - cur,
    {
        let ghost pv = pairs@.map_values(|p: (String, u64)| (p.0@, p.1));
        if cur >= cs.len() || cs[cur] != '"' {
            return None;
        }
        let (key, j1) = match parse_string_body(cs, cur + 1) {
            Some(t) => t,
            None => {
                return None;
            },
        };
        let j2 = ws_to(cs, j1);
        if j2 >= cs.len() || cs[j2] != ':' {
            return None;
        }
        let j3 = ws_to(cs, j2 + 1);
        let (v, j4) = match parse_u64_at(cs, j3) {
            Some(t) => t,
            None => {
                return None;
            },
        };
        let j5 = ws_to(cs, j4);
        let ghost kv = (key@, v);
        pairs.push((key, v));
        proof {
            assert(pairs@.map_values(|p: (String, u64)| (p.0@, p.1)) =~= pv.push(kv));
        }
        if j5 < cs.len() && cs[j5] == ',' {
            let j6 = ws_to(cs, j5 + 1);
            proof {
                match sp_entries(cs@, j6 as int) {
                    Some(pt) => {
                        assert(sp_entries(cs@, cur as int) == Some((seq![kv] + pt.0, pt.1)));
                        assert(pv + (seq![kv] + pt.0) =~= pv.push(kv) + pt.0);
                    },
                    None => {
                        assert(sp_entries(cs@, cur as int) is None);
                    },
                }
            }
            if j6 <= cur {
                proof {
                    assert(false);
                }
                return None;
            }
            cur = j6;
        } else if j5 < cs.len() && cs[j5] == '}' {
            proof {
                assert(sp_entries(cs@, cur as int) == Some((seq![kv], j5 + 1 as int)));
                assert(pv + seq![kv] =~= pv.push(kv));
            }
            let j7 = ws_to(cs, j5 + 1);
            if j7 == cs.len() {
                return Some(pairs);
            } else {
                return None;
            }
        } else {
            return None;
        }
    }
}

} // verus!

verus! {

/// Powers of ten.
pub open spec fn pow10(k: nat) -> nat
    decreases k,
{
    if k == 0 {
        1
    } else {
        10 * pow10((k - 1) as nat)
    }
}

/// The value of the digit block `s[i..j)`, most significant first.
pub open spec fn blockval(s: Seq<char>, i: int, j: int) -> nat
    decreases j - i,
{
    if j <= i {
        0
    } else {
        blockval(s, i, j - 1) * 10 + crate::dates::digit_val(s[j - 1]) as nat
    }
}

/// A digit character carries its value.
pub proof fn lemma_digit_char_val(v: int)
    requires
        0 <= v <= 9,
    ensures
        crate::dates::is_digit_char(digit_char(v)),
        crate::dates::digit_val(digit_char(v)) == v,
{
}

/// A hex digit character is one, and carries its value.
pub proof fn lemma_hex_digit_val(v: int)
    requires
        0 <= v <= 15,
    ensures
        is_hex_char(hex_digit(v)),
        hex_val(hex_digit(v)) == v,
{
}

/// The leading digit contributes its place value.
proof fn lemma_blockval_first(s: Seq<char>, i: int, j: int)
    requires
        i < j,
    ensures
        blockval(s, i, j) == (crate::dates::digit_val(s[i]) as nat) * pow10((j - i - 1) as nat)
            + blockval(s, i + 1, j),
    decreases j - i,
{
    let d = crate::dates::digit_val(s[i]) as nat;
    if j == i + 1 {
        assert(blockval(s, i, j) == blockval(s, i, i) * 10 + d);
        assert(pow10(0) == 1);
        assert(d * 1 == d) by (nonlinear_arith);
        assert(blockval(s, i + 1, j) == 0);
    } else {
        lemma_blockval_first(s, i, j - 1);
        let m = (j - i - 2) as nat;
        assert(blockval(s, i, j) == blockval(s, i, j - 1) * 10 + crate::dates::digit_val(
            s[j - 1],
        ) as nat);
        assert(blockval(s, i, j - 1) == d * pow10(m) + blockval(s, i + 1, j - 1));
        assert((d * pow10(m) + blockval(s, i + 1, j - 1)) * 10 == d * pow10(m) * 10 + blockval(
            s,
            i + 1,
            j - 1,
        ) * 10) by (nonlinear_arith);
        assert(d * pow10(m) * 10 == d * (pow10(m) * 10)) by (nonlinear_arith);
        assert(pow10(m) * 10 == pow10(m + 1)) by {
            assert(pow10(m + 1) == 10 * pow10(m));
            assert(pow10(m) * 10 == 10 * pow10(m)) by (nonlinear_arith);
        }
        assert(blockval(s, i + 1, j) == blockval(s, i + 1, j - 1) * 10 + crate::dates::digit_val(
            s[j - 1],
        ) as nat);
    }
}

/// Scanning a digit block folds its value onto `acc` scaled by its width.
proof fn lemma_sp_digits_block(s: Seq<char>, i: int, j: int, acc: nat)
    requires
        0 <= i <= j <= s.len(),
        forall|p: int| i <= p < j ==> crate::dates::is_digit_char(#[trigger] s[p]),
        j == s.len() || !crate::dates::is_digit_char(s[j as int]),
    ensures
        sp_digits(s, i, acc) == (acc * pow10((j - i) as nat) + blockval(s, i, j), j),
    decreases j - i,
{
    if i == j {
        assert(pow10(0) == 1);
        assert(acc * 1 == acc) by (nonlinear_arith);
        if i < s.len() {
            assert(!crate::dates::is_digit_char(s[i]));
        }
    } else {
        assert(crate::dates::is_digit_char(s[i]));
        let d = crate::dates::digit_val(s[i]) as nat;
        let acc2 = acc * 10 + d;
        lemma_sp_digits_block(s, i + 1, j, acc2);
        lemma_blockval_first(s, i, j);
        let m = (j - i - 1) as nat;
        assert((acc * 10 + d) * pow10(m) == acc * 10 * pow10(m) + d * pow10(m))
            by (nonlinear_arith);
        assert(acc2 * pow10(m) == (acc * 10 + d) * pow10(m));
        assert(acc * 10 * pow10(m) == acc * (10 * pow10(m))) by (nonlinear_arith);
        assert(10 * pow10(m) == pow10(m + 1));
    }
}

/// The decimal rendering is all digits and denotes the number itself.
proof fn lemma_dec_str_value(s: Seq<char>, i: int, j: int, n: nat)
    requires
        0 <= i < j <= s.len(),
        s.subrange(i, j) == dec_str(n),
    ensures
        forall|p: int| i <= p < j ==> crate::dates::is_digit_char(#[trigger] s[p]),
        blockval(s, i, j) == n,
    decreases n,
{
    if n < 10 {
        assert(dec_str(n).len() == 1);
        assert(s[i] == dec_str(n)[0]);
        lemma_digit_char_val(n as int);
        assert(blockval(s, i, i) == 0);
        assert forall|p: int| i <= p < j implies crate::dates::is_digit_char(#[trigger] s[p]) by {
            assert(p == i);
        }
    } else {
        assert(dec_str(n) == dec_str(n / 10).push(digit_char((n % 10) as int)));
        assert(s.subrange(i, j - 1) =~= dec_str(n / 10)) by {
            assert forall|o: int| 0 <= o < j - 1 - i implies #[trigger] s.subrange(i, j - 1)[o]
                == dec_str(n / 10)[o] by {
                assert(s.subrange(i, j)[o] == dec_str(n)[o]);
            }
            assert(dec_str(n / 10).len() == dec_str(n).len() - 1);
        }
        lemma_dec_str_value(s, i, j - 1, n / 10);
        assert(s[j - 1] == dec_str(n)[j - 1 - i]);
        assert(s[j - 1] == digit_char((n % 10) as int));
        lemma_digit_char_val((n % 10) as int);
        assert(blockval(s, i, j) == (n / 10) * 10 + n % 10);
        assert((n / 10) * 10 + n % 10 == n) by (nonlinear_arith);
        assert forall|p: int| i <= p < j implies crate::dates::is_digit_char(#[trigger] s[p]) by {
            if p == j - 1 {
            }
        }
    }
}

/// A rendered number parses back to itself.
proof fn lemma_dec_str_parse(s: Seq<char>, i: int, j: int, n: u64)
    requires
        0 <= i < j <= s.len(),
        s.subrange(i, j) == dec_str(n as nat),
        j == s.len() || !crate::dates::is_digit_char(s[j as int]),
    ensures
        sp_u64(s, i) == Some((n, j)),
    decreases n,
{
    lemma_dec_str_value(s, i, j, n as nat);
    lemma_sp_digits_block(s, i, j, 0);
    assert(0 * pow10((j - i) as nat) == 0) by (nonlinear_arith);
    assert(s[i] == s.subrange(i, j)[0]);
}

} // verus!

verus! {

/// An escaped key followed by a closing quote parses back to the key.
proof fn lemma_esc_parse(s: Seq<char>, i: int, j: int, k: Seq<char>)
    requires
        0 <= i <= j < s.len(),
        s.subrange(i, j) == esc_str(k),
        s[j] == '"',
    ensures
        sp_string_body(s, i) == Some((k, j + 1)),
    decreases k.len(),
{
    if k.len() == 0 {
        assert(esc_str(k).len() == 0);
        assert(i == j);
    } else {
        let c = k[0];
        let b = esc_char(c);
        let rest = esc_str(k.drop_first());
        assert(esc_str(k) == b + rest);
        let ln = b.len() as int;
        assert forall|o: int| 0 <= o < ln implies s[i + o] == b[o] by {
            assert(s.subrange(i, j)[o] == (b + rest)[o]);
        }
        assert(s.subrange(i + ln, j) =~= rest) by {
            assert forall|o: int| 0 <= o < j - i - ln implies #[trigger] s.subrange(i + ln, j)[o]
                == rest[o] by {
                assert(s.subrange(i, j)[ln + o] == (b + rest)[ln + o]);
            }
        }
        assert(seq![c] + k.drop_first() =~= k);
        if c == '"' {
            assert(s[i] == '\\' && s[i + 1] == '"');
            lemma_esc_parse(s, i + 2, j, k.drop_first());
        } else if c == '\\' {
            assert(s[i] == '\\' && s[i + 1] == '\\');
            lemma_esc_parse(s, i + 2, j, k.drop_first());
        } else if (c as u32) < 32 {
            let v = c as u32 as int;
            assert(s[i] == '\\' && s[i + 1] == 'u' && s[i + 2] == '0' && s[i + 3] == '0');
            assert(s[i + 4] == hex_digit(v / 16));
            assert(s[i + 5] == hex_digit(v % 16));
            lemma_hex_digit_val(0);
            lemma_hex_digit_val(v / 16);
            lemma_hex_digit_val(v % 16);
            assert(s[i + 1] != '"' && s[i + 1] != '\\' && s[i + 1] != '/');
            assert(s[i + 1] != 'b' && s[i + 1] != 'f' && s[i + 1] != 'n' && s[i + 1] != 'r' && s[i
                + 1] != 't');
            let w = hex_val(s[i + 2]) * 4096 + hex_val(s[i + 3]) * 256 + hex_val(s[i + 4]) * 16
                + hex_val(s[i + 5]);
            assert(w == (v / 16) * 16 + v % 16);
            assert((v / 16) * 16 + v % 16 == v) by (nonlinear_arith);
            assert(!(0xD800 <= w < 0xE000));
            vstd::utf8::char_u32_cast(c, c as u32);
            assert((w as u32) as char == c);
            lemma_esc_parse(s, i + 6, j, k.drop_first());
        } else {
            assert(s[i] == c);
            assert(s[i] != '"' && s[i] != '\\' && !((s[i] as u32) < 32));
            lemma_esc_parse(s, i + 1, j, k.drop_first());
        }
    }
}

} // verus!

verus! {

/// Whitespace skipping steps over one whitespace character.
proof fn lemma_ws_step(s: Seq<char>, x: int)
    requires
        0 <= x < s.len(),
        is_json_ws(s[x]),
    ensures
        sp_ws(s, x) == sp_ws(s, x + 1),
{
}

/// A rendered entry list followed by the closing newline and brace parses
/// back to the same pairs, ending at the end of the text.
#[verifier::rlimit(60)]
proof fn lemma_entries_parse(s: Seq<char>, i: int, ps: Seq<(Seq<char>, u64)>)
    requires
        ps.len() >= 1,
        0 <= i,
        s.len() == i + entries_str(ps).len() + 2,
        s.subrange(i, s.len() - 2) == entries_str(ps),
        s[s.len() - 2] == '\n',
        s[s.len() - 1] == '}',
    ensures
        sp_entries(s, i + 2) == Some((ps, s.len() as int)),
    decreases ps.len(),
{
    let k = ps[0].0;
    let v = ps[0].1;
    let e = entry_str(k, v);
    let eb = entries_str(ps);
    let esc = esc_str(k);
    let dec = dec_str(v as nat);
    assert(e == seq!['"'] + esc + seq!['"', ':', ' '] + dec);
    let p0 = i + 2;
    let q0 = p0 + 1;
    let qe = q0 + esc.len();
    let nd0 = qe + 3;
    let nd1 = nd0 + dec.len();
    if ps.len() == 1 {
        assert(eb == seq![' ', ' '] + e);
        assert forall|o: int| 0 <= o < eb.len() implies s[i + o] == eb[o] by {
            assert(s.subrange(i, s.len() - 2)[o] == eb[o]);
        }
        assert(s[p0] == '"') by {
            assert(s[i + 2] == eb[2]);
            assert(eb[2] == e[0]);
            assert(e[0] == '"');
        }
        assert forall|o: int| 0 <= o < esc.len() implies s[q0 + o] == esc[o] by {
            assert(eb[3 + o] == e[1 + o]);
            assert(e[1 + o] == esc[o]);
        }
        assert(s.subrange(q0, qe) =~= esc);
        assert(s[qe] == '"') by {
            assert(eb[qe - i] == e[qe - i - 2]);
        }
        assert(s[qe + 1] == ':' && s[qe + 2] == ' ') by {
            assert(eb[qe + 1 - i] == e[qe - i - 1]);
            assert(eb[qe + 2 - i] == e[qe - i]);
        }
        assert forall|o: int| 0 <= o < dec.len() implies s[nd0 + o] == dec[o] by {
            assert(eb[nd0 + o - i] == e[nd0 + o - i - 2]);
        }
        assert(s.subrange(nd0, nd1) =~= dec);
        assert(nd1 == s.len() - 2);
        lemma_esc_parse(s, q0, qe, k);
        assert(sp_ws(s, qe + 1) == qe + 1);
        lemma_ws_step(s, qe + 2);
        assert(sp_ws(s, qe + 2) == nd0) by {
            assert(dec.len() > 0);
            assert(crate::dates::is_digit_char(s[nd0])) by {
                lemma_dec_str_value(s, nd0, nd1, v as nat);
            }
            assert(!is_json_ws(s[nd0]));
        }
        lemma_dec_str_parse(s, nd0, nd1, v);
        lemma_ws_step(s, nd1);
        assert(sp_ws(s, nd1 + 1) == nd1 + 1);
        assert(s[nd1 + 1] == '}');
        assert(sp_entries(s, i + 2) == Some((seq![(k, v)], s.len() as int)));
        assert(seq![(k, v)] =~= ps) by {
            assert((k, v) == ps[0]);
        }
    } else {
        let rest = entries_str(ps.drop_first());
        assert(eb == seq![' ', ' '] + e + seq![',', '\n'] + rest);
        assert forall|o: int| 0 <= o < eb.len() implies s[i + o] == eb[o] by {
            assert(s.subrange(i, s.len() - 2)[o] == eb[o]);
        }
        assert(s[p0] == '"') by {
            assert(s[i + 2] == eb[2]);
            assert(eb[2] == e[0]);
            assert(e[0] == '"');
        }
        assert forall|o: int| 0 <= o < esc.len() implies s[q0 + o] == esc[o] by {
            assert(eb[3 + o] == e[1 + o]);
            assert(e[1 + o] == esc[o]);
        }
        assert(s.subrange(q0, qe) =~= esc);
        assert(s[qe] == '"') by {
            assert(eb[qe - i] == e[qe - i - 2]);
        }
        assert(s[qe + 1] == ':' && s[qe + 2] == ' ') by {
            assert(eb[qe + 1 - i] == e[qe - i - 1]);
            assert(eb[qe + 2 - i] == e[qe - i]);
        }
        assert forall|o: int| 0 <= o < dec.len() implies s[nd0 + o] == dec[o] by {
            assert(eb[nd0 + o - i] == e[nd0 + o - i - 2]);
        }
        assert(s.subrange(nd0, nd1) =~= dec);
        assert(s[nd1] == ',' && s[nd1 + 1] == '\n') by {
            assert(eb[nd1 - i] == ',');
            assert(eb[nd1 + 1 - i] == '\n');
        }
        let i2 = nd1 + 2;
        assert(s[i2] == ' ' && s[i2 + 1] == ' ') by {
            assert(eb[i2 - i] == rest[0]);
            assert(eb[i2 + 1 - i] == rest[1]);
            assert(rest[0] == ' ' && rest[1] == ' ');
        }
        assert(s.subrange(i2, s.len() - 2) =~= rest) by {
            assert forall|o: int| 0 <= o < rest.len() implies #[trigger] s.subrange(
                i2,
                s.len() - 2,
            )[o] == rest[o] by {
                assert(s[i2 + o] == eb[i2 + o - i]);
            }
        }
        lemma_entries_parse(s, i2, ps.drop_first());
        lemma_esc_parse(s, q0, qe, k);
        assert(sp_ws(s, qe + 1) == qe + 1);
        lemma_ws_step(s, qe + 2);
        assert(sp_ws(s, qe + 2) == nd0) by {
            assert(dec.len() > 0);
            assert(crate::dates::is_digit_char(s[nd0])) by {
                lemma_dec_str_value(s, nd0, nd1, v as nat);
            }
            assert(!is_json_ws(s[nd0]));
        }
        lemma_dec_str_parse(s, nd0, nd1, v);
        assert(sp_ws(s, nd1) == nd1);
        lemma_ws_step(s, nd1 + 1);
        lemma_ws_step(s, nd1 + 2);
        lemma_ws_step(s, nd1 + 3);
        assert(s[i2 + 2] == '"') by {
            assert(eb[i2 + 2 - i] == rest[2]);
            assert(rest[2] == entry_str(ps.drop_first()[0].0, ps.drop_first()[0].1)[0]);
        }
        assert(sp_ws(s, nd1 + 4) == nd1 + 4);
        assert(sp_ws(s, nd1 + 1) == i2 + 2);
        assert(sp_entries(s, i + 2) == Some((seq![(k, v)] + ps.drop_first(), s.len() as int)));
        assert(seq![(k, v)] + ps.drop_first() =~= ps) by {
            assert((k, v) == ps[0]);
        }
    }
}

/// Writing a list of key/count pairs as a stats document and reading the
/// document back yields exactly the same pairs: the stats format loses
/// nothing, whatever the keys and counts.
#[verifier::rlimit(60)]
pub proof fn lemma_stats_round_trip(ps: Seq<(Seq<char>, u64)>)
    ensures
        sp_stats(stats_doc(ps)) == Some(ps),
{
    let s = stats_doc(ps);
    if ps.len() == 0 {
        assert(s == seq!['{', '}']);
        assert(s[0] == '{' && s[1] == '}');
        assert(sp_ws(s, 0) == 0);
        assert(sp_ws(s, 1) == 1);
        assert(sp_ws(s, 2) == 2);
        assert(Some(Seq::<(Seq<char>, u64)>::empty()) == Some(ps)) by {
            assert(Seq::<(Seq<char>, u64)>::empty() =~= ps);
        }
    } else {
        let eb = entries_str(ps);
        assert(s == seq!['{', '\n'] + eb + seq!['\n', '}']);
        assert(s[0] == '{');
        assert(sp_ws(s, 0) == 0);
        assert(s[1] == '\n');
        assert(s[2] == eb[0] && s[3] == eb[1]);
        assert(eb[0] == ' ' && eb[1] == ' ');
        assert(s[4] == eb[2]);
        assert(eb[2] == entry_str(ps[0].0, ps[0].1)[0]);
        assert(eb[2] == '"');
        lemma_ws_step(s, 1);
        lemma_ws_step(s, 2);
        lemma_ws_step(s, 3);
        assert(sp_ws(s, 4) == 4);
        assert(sp_ws(s, 1) == 4);
        assert(s.subrange(2, s.len() - 2) =~= eb);
        assert(s[s.len() - 2] == '\n' && s[s.len() - 1] == '}');
        lemma_entries_parse(s, 2, ps);
        assert(sp_entries(s, 4) == Some((ps, s.len() as int)));
        assert(sp_ws(s, s.len() as int) == s.len());
    }
}

} // verus!
