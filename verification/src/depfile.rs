//! Parsing the make rules that gcc writes into `.d` dependency files.

use vstd::prelude::*;
use vstd::utf8::encode_utf8;
use vstd::utf8::encode_scalar;

use crate::text::{
    chars_of, copy_range, is_ascii_letter, is_white, is_white_char, lemma_replace_all_prefix,
    pair_views, replace_all, replace_chars, split_chars, split_on, string_views, strings_of, trim,
    trim_chars, views, Sep,
};

verus! {

/// Whether the `':'` at position `i` of a rule line separates targets from
/// prerequisites: a colon, unless it is the drive-letter colon of a Windows
/// path (`C:\...` or `C:/...`) at the very start of the line.
pub open spec fn is_rule_colon_at(s: Seq<char>, i: int) -> bool {
    &&& 0 <= i < s.len()
    &&& s[i] == ':'
    &&& !(i == 1 && is_ascii_letter(s[0]) && i + 1 < s.len() && (s[i + 1] == '/' || s[i + 1]
        == '\\'))
}

/// The first rule colon at or after position `i`.
pub open spec fn rule_colon_from(s: Seq<char>, i: int) -> Option<int>
    decreases s.len() - i,
{
    if i < 0 || i >= s.len() {
        None
    } else if is_rule_colon_at(s, i) {
        Some(i)
    } else {
        rule_colon_from(s, i + 1)
    }
}

/// The position of the first rule colon of `s`, counted in characters.
pub open spec fn rule_colon(s: Seq<char>) -> Option<int> {
    rule_colon_from(s, 0)
}

/// `rule_colon` gives the first rule colon, and `None` only when there is none.
pub proof fn lemma_rule_colon_first(s: Seq<char>, i: int)
    requires
        0 <= i <= s.len(),
    ensures
        match rule_colon_from(s, i) {
            Some(k) => i <= k < s.len() && is_rule_colon_at(s, k) && forall|j: int|
                i <= j < k ==> !is_rule_colon_at(s, j),
            None => forall|j: int| i <= j < s.len() ==> !is_rule_colon_at(s, j),
        },
    decreases s.len() - i,
{
    if i < s.len() && !is_rule_colon_at(s, i) {
        lemma_rule_colon_first(s, i + 1);
    }
}

/// The position, in characters, of the first rule colon of `s`.
fn rule_colon_chars(s: &Vec<char>) -> (r: Option<usize>)
    ensures
        match r {
            Some(k) => rule_colon(s@) == Some(k as int),
            None => rule_colon(s@) is None,
        },
{
    let n = s.len();
    let mut i: usize = 0;
    while i < n
        invariant
            n == s@.len(),
            i <= n,
            rule_colon(s@) == rule_colon_from(s@, i as int),
        decreases n - i,
    {
        if s[i] == ':' {
            let drive = i == 1 && is_ascii_letter_char(s[0]) && i + 1 < n && (s[i + 1] == '/'
                || s[i + 1] == '\\');
            if !drive {
                return Some(i);
            }
        }
        i = i + 1;
    }
    None
}

/// Whether `c` is an ASCII letter.
fn is_ascii_letter_char(c: char) -> (b: bool)
    ensures
        b == is_ascii_letter(c),
{
    ('a' <= c && c <= 'z') || ('A' <= c && c <= 'Z')
}

/// UTF-8 encoding distributes over concatenation.
pub proof fn lemma_encode_utf8_concat(a: Seq<char>, b: Seq<char>)
    ensures
        encode_utf8(a + b) == encode_utf8(a) + encode_utf8(b),
    decreases a.len(),
{
    if a.len() > 0 {
        lemma_encode_utf8_concat(a.drop_first(), b);
        assert((a + b).drop_first() == a.drop_first() + b);
        assert((a + b)[0] == a[0]);
    } else {
        assert(a + b == b);
    }
}

/// The number of bytes in the UTF-8 encoding of `c`.
fn utf8_width(c: char) -> (w: usize)
    ensures
        w == encode_scalar(c as u32).len(),
{
    let v = c as u32;
    if v <= 0x7F {
        1
    } else if v <= 0x7FF {
        2
    } else if v <= 0xFFFF {
        3
    } else {
        4
    }
}

/// Finds the `':'` that separates targets from prerequisites on a rule line,
/// skipping a Windows drive-letter colon (`C:\foo`) at its start. The result
/// is a byte offset into `line`.
pub fn find_rule_colon(line: &str) -> (r: Option<usize>)
    ensures
        r == match rule_colon(line@) {
            Some(k) => Some(encode_utf8(line@.take(k)).len() as usize),
            None => None::<usize>,
        },
{
    let cs = chars_of(line);
    let bytes = line.as_bytes();
    match rule_colon_chars(&cs) {
        None => None,
        Some(k) => {
            let ghost s = line@;
            let blen = bytes.len();
            proof {
                lemma_rule_colon_first(s, 0);
                lemma_encode_utf8_concat(s.take(k as int), s.skip(k as int));
                assert(s.take(k as int) + s.skip(k as int) == s);
            }
            let mut off: usize = 0;
            let mut i: usize = 0;
            assert(s.take(0) == Seq::<char>::empty());
            while i < k
                invariant
                    i <= k < s.len(),
                    cs@ == s,
                    bytes@ == encode_utf8(s),
                    blen == bytes@.len(),
                    encode_utf8(s.take(k as int)).len() <= encode_utf8(s).len(),
                    off == encode_utf8(s.take(i as int)).len(),
                decreases k - i,
            {
                proof {
                    lemma_encode_utf8_concat(s.take(i as int), seq![s[i as int]]);
                    assert(s.take(i + 1) == s.take(i as int) + seq![s[i as int]]);
                    assert(seq![s[i as int]].drop_first() == Seq::<char>::empty());
                    let e = encode_scalar(s[i as int] as u32);
                    assert(encode_utf8(Seq::<char>::empty()) == Seq::<u8>::empty());
                    assert(e + Seq::<u8>::empty() == e);
                    assert(encode_utf8(seq![s[i as int]]) == e);
                    lemma_encode_utf8_concat(s.take(i + 1), s.subrange(i + 1, k as int));
                    assert(s.take(i + 1) + s.subrange(i + 1, k as int) == s.take(k as int));
                }
                off = off + utf8_width(cs[i]);
                i = i + 1;
            }
            Some(off)
        },
    }
}


/// `acc` with `cur` appended when `cur` is not empty.
pub open spec fn flush(acc: Seq<Seq<char>>, cur: Seq<char>) -> Seq<Seq<char>> {
    if cur.len() > 0 {
        acc.push(cur)
    } else {
        acc
    }
}

/// Make's tokenizer as a scan over `s`: `cur` is the token being read and
/// `acc` the tokens finished so far. Whitespace ends a token; a backslash
/// directly followed by a space stands for a space inside the token.
pub open spec fn scan_tokens(s: Seq<char>, cur: Seq<char>, acc: Seq<Seq<char>>) -> Seq<
    Seq<char>,
>
    decreases s.len(),
{
    if s.len() == 0 {
        flush(acc, cur)
    } else if s[0] == '\\' && s.len() > 1 && s[1] == ' ' {
        scan_tokens(s.skip(2), cur.push(' '), acc)
    } else if is_white(s[0]) {
        scan_tokens(s.drop_first(), Seq::empty(), flush(acc, cur))
    } else {
        scan_tokens(s.drop_first(), cur.push(s[0]), acc)
    }
}

/// The whitespace-separated make tokens of `s`.
pub open spec fn make_tokens(s: Seq<char>) -> Seq<Seq<char>> {
    scan_tokens(s, Seq::empty(), Seq::empty())
}

/// A token as the tokenizer produces it: not empty, and holding no
/// whitespace but the spaces that were escaped.
pub open spec fn well_formed_token(t: Seq<char>) -> bool {
    &&& t.len() > 0
    &&& forall|j: int| 0 <= j < t.len() && is_white(#[trigger] t[j]) ==> t[j] == ' '
}

proof fn lemma_scan_tokens_well_formed(s: Seq<char>, cur: Seq<char>, acc: Seq<Seq<char>>)
    requires
        forall|j: int| 0 <= j < acc.len() ==> well_formed_token(#[trigger] acc[j]),
        forall|j: int| 0 <= j < cur.len() && is_white(#[trigger] cur[j]) ==> cur[j] == ' ',
    ensures
        forall|j: int|
            0 <= j < scan_tokens(s, cur, acc).len() ==> well_formed_token(
                #[trigger] scan_tokens(s, cur, acc)[j],
            ),
    decreases s.len(),
{
    if s.len() == 0 {
        assert forall|j: int| 0 <= j < flush(acc, cur).len() implies well_formed_token(
            #[trigger] flush(acc, cur)[j],
        ) by {
            if j < acc.len() {
                assert(flush(acc, cur)[j] == acc[j]);
            }
        }
    } else if s[0] == '\\' && s.len() > 1 && s[1] == ' ' {
        lemma_scan_tokens_well_formed(s.skip(2), cur.push(' '), acc);
        assert(scan_tokens(s, cur, acc) == scan_tokens(s.skip(2), cur.push(' '), acc));
    } else if is_white(s[0]) {
        assert forall|j: int| 0 <= j < flush(acc, cur).len() implies well_formed_token(
            #[trigger] flush(acc, cur)[j],
        ) by {
            if j < acc.len() {
                assert(flush(acc, cur)[j] == acc[j]);
            }
        }
        lemma_scan_tokens_well_formed(s.drop_first(), Seq::empty(), flush(acc, cur));
        assert(scan_tokens(s, cur, acc) == scan_tokens(s.drop_first(), Seq::empty(), flush(acc, cur)));
    } else {
        assert forall|j: int| 0 <= j < cur.push(s[0]).len() && is_white(#[trigger] cur.push(s[0])[j]) implies cur.push(s[0])[j] == ' ' by {
            if j < cur.len() {
                assert(cur.push(s[0])[j] == cur[j]);
            }
        }
        lemma_scan_tokens_well_formed(s.drop_first(), cur.push(s[0]), acc);
        assert(scan_tokens(s, cur, acc) == scan_tokens(s.drop_first(), cur.push(s[0]), acc));
    }
}

/// Every token that the tokenizer yields is non-empty, and the only
/// whitespace inside a token is an escaped space.
pub proof fn make_tokens_are_well_formed(s: Seq<char>)
    ensures
        forall|j: int|
            0 <= j < make_tokens(s).len() ==> well_formed_token(#[trigger] make_tokens(s)[j]),
{
    lemma_scan_tokens_well_formed(s, Seq::empty(), Seq::empty());
}

/// Splits `s` into make tokens.
fn tokens_of(s: &Vec<char>) -> (r: Vec<Vec<char>>)
    ensures
        views(r@) == make_tokens(s@),
{
    let mut acc: Vec<Vec<char>> = Vec::new();
    let mut cur: Vec<char> = Vec::new();
    let n = s.len();
    let mut i: usize = 0;
    assert(s@.skip(0) == s@);
    assert(views(acc@) =~= Seq::<Seq<char>>::empty());
    while i < n
        invariant
            n == s@.len(),
            i <= n,
            make_tokens(s@) == scan_tokens(s@.skip(i as int), cur@, views(acc@)),
        decreases n - i,
    {
        let c = s[i];
        let ghost rest = s@.skip(i as int);
        if c == '\\' && i + 1 < n && s[i + 1] == ' ' {
            assert(rest.skip(2) == s@.skip(i + 2));
            cur.push(' ');
            i = i + 2;
        } else if is_white_char(c) {
            assert(rest.drop_first() == s@.skip(i + 1));
            if cur.len() > 0 {
                let ghost old_acc = views(acc@);
                let ghost cv = cur@;
                acc.push(cur);
                assert(views(acc@) =~= old_acc.push(cv));
            }
            cur = Vec::new();
            i = i + 1;
        } else {
            assert(rest.drop_first() == s@.skip(i + 1));
            cur.push(c);
            i = i + 1;
        }
    }
    if cur.len() > 0 {
        let ghost old_acc = views(acc@);
        let ghost cv = cur@;
        acc.push(cur);
        assert(views(acc@) =~= old_acc.push(cv));
    }
    acc
}

/// Splits whitespace-separated make tokens, honoring backslash-escaped
/// spaces (`foo\ bar.h` is one file name, not two tokens).
pub fn split_make_tokens(s: &str) -> (r: Vec<String>)
    ensures
        string_views(r@) == make_tokens(s@),
{
    let cs = chars_of(s);
    let toks = tokens_of(&cs);
    strings_of(&toks)
}


/// The text of a `.d` file with its line continuations (a backslash at the
/// end of a line, before `"\r\n"` or `"\n"`) replaced by a space.
pub open spec fn joined_lines(content: Seq<char>) -> Seq<char> {
    replace_all(
        replace_all(content, seq!['\\', '\r', '\n'], seq![' ']),
        seq!['\\', '\n'],
        seq![' '],
    )
}

/// Every `(t, p)` with `t` from `ts` and `p` from `ps`, in the order of `ts`
/// and then of `ps`.
pub open spec fn cross_pairs(ts: Seq<Seq<char>>, ps: Seq<Seq<char>>) -> Seq<
    (Seq<char>, Seq<char>),
>
    decreases ts.len(),
{
    if ts.len() == 0 {
        Seq::empty()
    } else {
        cross_pairs(ts.drop_last(), ps) + ps.map_values(|p: Seq<char>| (ts.last(), p))
    }
}

/// The (target, prerequisite) pairs of one line of a `.d` file: none unless
/// the trimmed line holds a rule colon.
pub open spec fn rule_pairs(line: Seq<char>) -> Seq<(Seq<char>, Seq<char>)> {
    let t = trim(line);
    match rule_colon(t) {
        Some(k) => cross_pairs(make_tokens(t.take(k)), make_tokens(t.skip(k + 1))),
        None => Seq::empty(),
    }
}

/// The pairs of all `lines`, in order.
pub open spec fn lines_pairs(lines: Seq<Seq<char>>) -> Seq<(Seq<char>, Seq<char>)>
    decreases lines.len(),
{
    if lines.len() == 0 {
        Seq::empty()
    } else {
        lines_pairs(lines.drop_last()) + rule_pairs(lines.last())
    }
}

/// The (target, prerequisite) pairs of the rules of a `.d` file.
pub open spec fn dep_pairs(content: Seq<char>) -> Seq<(Seq<char>, Seq<char>)> {
    lines_pairs(split_on(joined_lines(content), Sep::Newline))
}

/// The pairs of consecutive runs of lines are the pairs of the first run
/// followed by those of the second.
pub proof fn lemma_lines_pairs_concat(a: Seq<Seq<char>>, b: Seq<Seq<char>>)
    ensures
        lines_pairs(a + b) == lines_pairs(a) + lines_pairs(b),
    decreases b.len(),
{
    if b.len() == 0 {
        assert(a + b =~= a);
        assert(lines_pairs(a) + Seq::<(Seq<char>, Seq<char>)>::empty() =~= lines_pairs(a));
    } else {
        lemma_lines_pairs_concat(a, b.drop_last());
        assert((a + b).drop_last() =~= a + b.drop_last());
        assert((a + b).last() == b.last());
        assert(lines_pairs(a) + lines_pairs(b.drop_last()) + rule_pairs(b.last()) =~= lines_pairs(a) + (
        lines_pairs(b.drop_last()) + rule_pairs(b.last())));
    }
}

/// Text without a backslash has no line continuation.
proof fn lemma_joined_without_backslash(a: Seq<char>, b: Seq<char>)
    requires
        forall|i: int| 0 <= i < a.len() ==> #[trigger] a[i] != '\\',
    ensures
        joined_lines(a + b) == a + joined_lines(b),
{
    let p1 = seq!['\\', '\r', '\n'];
    let p2 = seq!['\\', '\n'];
    lemma_replace_all_prefix(a, b, p1, seq![' ']);
    lemma_replace_all_prefix(a, replace_all(b, p1, seq![' ']), p2, seq![' ']);
}

/// Every rule of a `.d` file counts, not only the first: a file made of a
/// first part without backslashes (so without line continuations), a line
/// break and a rest gives the pairs of the first part followed by the pairs
/// of the rest.
pub proof fn dep_pairs_of_following_rules(x: Seq<char>, y: Seq<char>)
    requires
        forall|i: int| 0 <= i < x.len() ==> #[trigger] x[i] != '\\',
    ensures
        dep_pairs(x + seq!['\n'] + y) == dep_pairs(x) + dep_pairs(y),
{
    let xn = x + seq!['\n'];
    assert forall|i: int| 0 <= i < xn.len() implies #[trigger] xn[i] != '\\' by {
        if i < x.len() {
            assert(xn[i] == x[i]);
        }
    }
    lemma_joined_without_backslash(xn, y);
    lemma_joined_without_backslash(x, Seq::empty());
    assert(x + Seq::<char>::empty() =~= x);
    assert(joined_lines(Seq::<char>::empty()) == Seq::<char>::empty());
    assert(xn + y == x + seq!['\n'] + y);
    assert(joined_lines(xn + y) == x + seq!['\n'] + joined_lines(y));
    crate::text::lemma_split_on_concat(x, '\n', joined_lines(y), Sep::Newline);
    lemma_lines_pairs_concat(split_on(x, Sep::Newline), split_on(joined_lines(y), Sep::Newline));
}

/// Appends to `pairs` every `(t, p)` with `t` from `ts` and `p` from `ps`.
fn push_cross(pairs: &mut Vec<(String, String)>, ts: &Vec<String>, ps: &Vec<String>)
    ensures
        pair_views(final(pairs)@) == pair_views(old(pairs)@) + cross_pairs(
            string_views(ts@),
            string_views(ps@),
        ),
{
    let ghost start = pair_views(pairs@);
    let nt = ts.len();
    let np = ps.len();
    assert(string_views(ts@).take(0) =~= Seq::<Seq<char>>::empty());
    assert(start + Seq::<(Seq<char>, Seq<char>)>::empty() == start);
    for i in 0..nt
        invariant
            nt == ts@.len(),
            np == ps@.len(),
            pair_views(pairs@) == start + cross_pairs(
                string_views(ts@).take(i as int),
                string_views(ps@),
            ),
    {
        let ghost before = pair_views(pairs@);
        let ghost row = string_views(ps@).map_values(|p: Seq<char>| (ts@[i as int]@, p));
        for j in 0..np
            invariant
                nt == ts@.len(),
                np == ps@.len(),
                i < nt,
                row == string_views(ps@).map_values(|p: Seq<char>| (ts@[i as int]@, p)),
                pair_views(pairs@) == before + row.take(j as int),
        {
            let t = ts[i].clone();
            let p = ps[j].clone();
            let ghost mid = pairs@;
            pairs.push((t, p));
            assert(pair_views(pairs@) =~= pair_views(mid).push((ts@[i as int]@, ps@[j as int]@)));
            assert(row.take(j + 1) =~= row.take(j as int).push(row[j as int]));
        }
        let ghost tv = string_views(ts@).take(i + 1);
        assert(tv.drop_last() =~= string_views(ts@).take(i as int));
        assert(row.take(np as int) =~= row);
        assert(start + cross_pairs(tv, string_views(ps@)) =~= before + row);
    }
    assert(string_views(ts@).take(nt as int) =~= string_views(ts@));
}

/// The make tokens of `line[from..to]`, as strings.
fn token_strings(line: &Vec<char>, from: usize, to: usize) -> (r: Vec<String>)
    requires
        from <= to <= line@.len(),
    ensures
        string_views(r@) == make_tokens(line@.subrange(from as int, to as int)),
{
    let part = copy_range(line, from, to);
    let toks = tokens_of(&part);
    strings_of(&toks)
}

/// Parses the text of a gcc-generated `.d` file into (target, prerequisite)
/// pairs. Line continuations are joined first; a file can hold several
/// rules (the empty rules that `-MP` adds give no pairs).
pub fn parse_dep_content(content: &str) -> (r: Vec<(String, String)>)
    ensures
        pair_views(r@) == dep_pairs(content@),
{
    let cs = chars_of(content);
    let space: Vec<char> = vec![' '];
    let crlf_continuation: Vec<char> = vec!['\\', '\r', '\n'];
    let lf_continuation: Vec<char> = vec!['\\', '\n'];
    assert(space@ =~= seq![' ']);
    assert(crlf_continuation@ =~= seq!['\\', '\r', '\n']);
    assert(lf_continuation@ =~= seq!['\\', '\n']);
    let once = replace_chars(&cs, &crlf_continuation, &space);
    let joined = replace_chars(&once, &lf_continuation, &space);
    let lines = split_chars(&joined, &Sep::Newline);
    let mut pairs: Vec<(String, String)> = Vec::new();
    let n = lines.len();
    assert(views(lines@).take(0) =~= Seq::<Seq<char>>::empty());
    assert(pair_views(pairs@) =~= Seq::<(Seq<char>, Seq<char>)>::empty());
    for li in 0..n
        invariant
            n == lines@.len(),
            views(lines@) == split_on(joined_lines(content@), Sep::Newline),
            pair_views(pairs@) == lines_pairs(views(lines@).take(li as int)),
    {
        let line = trim_chars(&lines[li]);
        let ghost lv = views(lines@).take(li + 1);
        assert(lv.drop_last() =~= views(lines@).take(li as int));
        assert(lv.last() == lines@[li as int]@);
        match rule_colon_chars(&line) {
            Some(k) => {
                proof {
                    lemma_rule_colon_first(line@, 0);
                    assert(line@.subrange(0, k as int) == line@.take(k as int));
                    assert(line@.subrange(k + 1, line@.len() as int) == line@.skip(k + 1));
                }
                let targets = token_strings(&line, 0, k);
                let prereqs = token_strings(&line, k + 1, line.len());
                push_cross(&mut pairs, &targets, &prereqs);
            },
            None => {
                assert(pair_views(pairs@) + Seq::<(Seq<char>, Seq<char>)>::empty() == pair_views(
                    pairs@,
                ));
            },
        }
    }
    assert(views(lines@).take(n as int) =~= views(lines@));
    pairs
}

} // verus!
