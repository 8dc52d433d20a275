//! Reading single arguments: classifying them, reading integers, splitting lists.
use vstd::prelude::*;

use crate::errors::{ArgotError, ErrorView};
use crate::types::{CliArg, CliArgView, texts};

verus! {

/// The characters of `s`.
pub fn chars_of(s: &str) -> (r: Vec<char>)
    ensures
        r@ == s@,
{
    let mut v: Vec<char> = Vec::new();
    for c in it: s.chars()
        invariant
            v@ == it.seq().take(it.index()),
            it.seq() == s@,
    {
        v.push(c);
    }
    v
}

/// `i` is the first position of `c` in `s`.
pub open spec fn is_first_index(s: Seq<char>, c: char, i: int) -> bool {
    0 <= i < s.len() && s[i] == c && forall|j: int| 0 <= j < i ==> s[j] != c
}

/// The first position of `c` in `s`, if `c` occurs.
pub open spec fn first_index_of(s: Seq<char>, c: char) -> Option<int> {
    if exists|i: int| is_first_index(s, c, i) {
        Some(choose|i: int| is_first_index(s, c, i))
    } else {
        None
    }
}

/// `s` cut at its first `c`: the part before, and the part after if there is a `c`.
pub open spec fn split_once(s: Seq<char>, c: char) -> (Seq<char>, Option<Seq<char>>) {
    match first_index_of(s, c) {
        Some(i) => (s.take(i), Some(s.skip(i + 1))),
        None => (s, None),
    }
}

pub(crate) proof fn lemma_first_index_found(s: Seq<char>, c: char, i: int)
    requires
        is_first_index(s, c, i),
    ensures
        first_index_of(s, c) == Some(i),
{
    let j = choose|j: int| is_first_index(s, c, j);
    assert(is_first_index(s, c, j));
    if j < i {
        assert(s[j] != c);
    }
    if i < j {
        assert(s[i] != c);
    }
}

proof fn lemma_first_index_absent(s: Seq<char>, c: char)
    requires
        forall|j: int| 0 <= j < s.len() ==> s[j] != c,
    ensures
        first_index_of(s, c) is None,
{
    if exists|i: int| is_first_index(s, c, i) {
        let i = choose|i: int| is_first_index(s, c, i);
        assert(s[i] != c);
    }
}

/// The first position at or after `start` where `chars` holds `c`.
fn find_char_from(chars: &Vec<char>, c: char, start: usize) -> (r: Option<usize>)
    requires
        start <= chars@.len(),
    ensures
        match first_index_of(chars@.skip(start as int), c) {
            Some(k) => r == Some((start + k) as usize),
            None => r is None,
        },
{
    let ghost s = chars@.skip(start as int);
    let mut i = start;
    while i < chars.len()
        invariant
            start <= i <= chars@.len(),
            s == chars@.skip(start as int),
            forall|j: int| 0 <= j < i - start ==> s[j] != c,
        decreases chars@.len() - i,
    {
        if chars[i] == c {
            proof {
                lemma_first_index_found(s, c, i - start);
            }
            return Some(i);
        }
        i = i + 1;
    }
    proof {
        lemma_first_index_absent(s, c);
    }
    None
}

/// How an argument is read: `-` and `--` are operands; `--name[=value]` is a long
/// option unless the name is empty; `-flags` is a cluster of short options;
/// `name=value` is a parameter unless the name is empty; anything else is an operand.
pub open spec fn classify(a: Seq<char>) -> CliArgView {
    if a == seq!['-'] || a == seq!['-', '-'] {
        CliArgView::Operand
    } else if a.len() >= 2 && a[0] == '-' && a[1] == '-' {
        let (name, value) = split_once(a.skip(2), '=');
        if name.len() == 0 {
            CliArgView::Operand
        } else {
            CliArgView::Long { name, value }
        }
    } else if a.len() >= 1 && a[0] == '-' {
        CliArgView::Short { flags: a.skip(1) }
    } else {
        let (name, value) = split_once(a, '=');
        if name.len() == 0 {
            CliArgView::Operand
        } else {
            match value {
                Some(v) => CliArgView::Parameter(name, v),
                None => CliArgView::Operand,
            }
        }
    }
}

/// Classifies one command-line argument.
pub fn get_opt_value(arg: &str) -> (r: CliArg)
    ensures
        r@ == classify(arg@),
{
    let chars = chars_of(arg);
    let n = chars.len();
    let ghost a = arg@;
    if (n == 1 && chars[0] == '-') || (n == 2 && chars[0] == '-' && chars[1] == '-') {
        proof {
            if n == 1 {
                assert(a =~= seq!['-']);
            } else {
                assert(a =~= seq!['-', '-']);
            }
        }
        return CliArg::Operand;
    }
    assert(a != seq!['-'] && a != seq!['-', '-']) by {
        if a == seq!['-'] {
            assert(a.len() == 1 && a[0] == '-');
        }
        if a == seq!['-', '-'] {
            assert(a.len() == 2 && a[0] == '-' && a[1] == '-');
        }
    }
    if n >= 2 && chars[0] == '-' && chars[1] == '-' {
        let ghost rest = a.skip(2);
        match find_char_from(&chars, '=', 2) {
            Some(i) => {
                assert(rest.take(i - 2) =~= a.subrange(2, i as int));
                assert(rest.skip(i - 2 + 1) =~= a.subrange(i + 1, n as int));
                if i == 2 {
                    CliArg::Operand
                } else {
                    let name = arg.substring_char(2, i).to_string();
                    let value = arg.substring_char(i + 1, n).to_string();
                    CliArg::Long { name, value: Some(value) }
                }
            },
            None => {
                assert(rest =~= a.subrange(2, n as int));
                if n == 2 {
                    CliArg::Operand
                } else {
                    let name = arg.substring_char(2, n).to_string();
                    CliArg::Long { name, value: None }
                }
            },
        }
    } else if n >= 1 && chars[0] == '-' {
        assert(a.skip(1) =~= a.subrange(1, n as int));
        CliArg::Short { flags: arg.substring_char(1, n).to_string() }
    } else {
        assert(a.skip(0) =~= a);
        match find_char_from(&chars, '=', 0) {
            Some(i) => {
                assert(a.take(i as int) =~= a.subrange(0, i as int));
                assert(a.skip(i + 1) =~= a.subrange(i + 1, n as int));
                if i == 0 {
                    CliArg::Operand
                } else {
                    let name = arg.substring_char(0, i).to_string();
                    let value = arg.substring_char(i + 1, n).to_string();
                    CliArg::Parameter(name, value)
                }
            },
            None => CliArg::Operand,
        }
    }
}

/// Whether `c` is an ASCII decimal digit.
pub open spec fn is_digit(c: char) -> bool {
    '0' <= c && c <= '9'
}

/// The value of a decimal digit.
pub open spec fn digit_value(c: char) -> int {
    (c as int) - ('0' as int)
}

/// What reading a text as a signed 64-bit integer gives.
pub enum IntReading {
    Value(i64),
    Empty,
    InvalidDigit,
    PosOverflow,
    NegOverflow,
}

/// Reads the digits of `d` from position `i` on, with `acc` read so far; each digit
/// moves `acc` ten times away from zero and adds (or, for a negative number, takes) its
/// value. The first character that is no digit, or the first digit that takes the
/// number out of the `i64` range, decides the outcome.
pub open spec fn scan_digits(d: Seq<char>, neg: bool, i: int, acc: int) -> IntReading
    decreases d.len() - i,
{
    if i >= d.len() {
        IntReading::Value(acc as i64)
    } else if !is_digit(d[i]) {
        IntReading::InvalidDigit
    } else {
        let next = if neg {
            acc * 10 - digit_value(d[i])
        } else {
            acc * 10 + digit_value(d[i])
        };
        if next > i64::MAX {
            IntReading::PosOverflow
        } else if next < i64::MIN {
            IntReading::NegOverflow
        } else {
            scan_digits(d, neg, i + 1, next)
        }
    }
}

/// Reading a decimal integer: an optional `+` or `-` and then at least one digit.
pub open spec fn read_i64(s: Seq<char>) -> IntReading {
    if s.len() == 0 {
        IntReading::Empty
    } else if s == seq!['+'] || s == seq!['-'] {
        IntReading::InvalidDigit
    } else if s[0] == '+' {
        scan_digits(s.skip(1), false, 0, 0)
    } else if s[0] == '-' {
        scan_digits(s.skip(1), true, 0, 0)
    } else {
        scan_digits(s, false, 0, 0)
    }
}

/// The description of an empty integer text.
pub open spec fn empty_int_message() -> Seq<char> {
    "cannot parse integer from empty string"@
}

/// The description of an integer text with a character that is no digit.
pub open spec fn invalid_digit_message() -> Seq<char> {
    "invalid digit found in string"@
}

/// What [`parse_int`] gives for a text.
pub open spec fn int_result(s: Seq<char>) -> Result<i64, ErrorView> {
    match read_i64(s) {
        IntReading::Value(n) => Ok(n),
        IntReading::Empty => Err(ErrorView::InvalidInt { value: empty_int_message() }),
        IntReading::InvalidDigit => Err(ErrorView::InvalidInt { value: invalid_digit_message() }),
        IntReading::PosOverflow => Err(ErrorView::UnsafeInteger { value: s }),
        IntReading::NegOverflow => Err(ErrorView::UnsafeInteger { value: s }),
    }
}

/// An integer error, as a result, in plain values.
pub open spec fn err_view<T>(r: Result<T, ArgotError>) -> Result<T, ErrorView> {
    match r {
        Ok(v) => Ok(v),
        Err(e) => Err(e@),
    }
}

/// Reads a decimal signed 64-bit integer. An empty text and a text with a character
/// that is no digit give [`ArgotError::InvalidInt`] carrying the description of the
/// fault; a number out of range gives [`ArgotError::UnsafeInteger`] carrying the text.
pub fn parse_int(value: &str) -> (r: Result<i64, ArgotError>)
    ensures
        err_view(r) == int_result(value@),
{
    let chars = chars_of(value);
    let n = chars.len();
    let ghost s = value@;
    if n == 0 {
        return Err(ArgotError::InvalidInt { value: String::from_str("cannot parse integer from empty string") });
    }
    if n == 1 && (chars[0] == '+' || chars[0] == '-') {
        assert(s =~= seq!['+'] || s =~= seq!['-']);
        return Err(ArgotError::InvalidInt { value: String::from_str("invalid digit found in string") });
    }
    assert(s != seq!['+'] && s != seq!['-']) by {
        if s == seq!['+'] || s == seq!['-'] {
            assert(s.len() == 1);
        }
    }
    let neg = chars[0] == '-';
    let start: usize = if chars[0] == '+' || chars[0] == '-' { 1 } else { 0 };
    let ghost d = s.skip(start as int);
    assert(s.skip(0) =~= s);
    let mut acc: i64 = 0;
    let mut i: usize = start;
    while i < n
        invariant
            start <= i <= n,
            n == chars@.len(),
            chars@ == s,
            s == value@,
            d == s.skip(start as int),
            start == 0 ==> !neg,
            scan_digits(d, neg, i - start, acc as int) == read_i64(s),
        decreases n - i,
    {
        let c = chars[i];
        assert(d[i - start] == c);
        if !('0' <= c && c <= '9') {
            return Err(ArgotError::InvalidInt { value: String::from_str("invalid digit found in string") });
        }
        let dv = (c as u32 - '0' as u32) as i128;
        let next: i128 = if neg { (acc as i128) * 10 - dv } else { (acc as i128) * 10 + dv };
        if next > i64::MAX as i128 {
            return Err(ArgotError::UnsafeInteger { value: value.to_string() });
        }
        if next < i64::MIN as i128 {
            return Err(ArgotError::UnsafeInteger { value: value.to_string() });
        }
        acc = next as i64;
        i = i + 1;
    }
    Ok(acc)
}

/// Reading `s` from `pos` on, with the current piece begun at `start`: the leftmost
/// occurrence of `sep` ends the piece, and the pieces that follow are read the same way.
pub open spec fn split_from(s: Seq<char>, sep: Seq<char>, start: int, pos: int) -> Seq<Seq<char>>
    decreases s.len() - pos,
{
    if sep.len() == 0 || pos + sep.len() > s.len() {
        seq![s.subrange(start, s.len() as int)]
    } else if s.subrange(pos, pos + sep.len()) == sep {
        seq![s.subrange(start, pos)] + split_from(s, sep, pos + sep.len(), pos + sep.len())
    } else {
        split_from(s, sep, start, pos + 1)
    }
}

/// The pieces of `s` between the occurrences of `sep`, found from left to right.
/// An empty separator gives an empty piece, each character on its own, and an empty piece.
pub open spec fn split_text(s: Seq<char>, sep: Seq<char>) -> Seq<Seq<char>> {
    if sep.len() == 0 {
        seq![Seq::<char>::empty()] + s.map_values(|c: char| seq![c]) + seq![Seq::<char>::empty()]
    } else {
        split_from(s, sep, 0, 0)
    }
}

/// Whether `p` occurs in `s` at `pos`.
fn matches_at(s: &Vec<char>, p: &Vec<char>, pos: usize) -> (r: bool)
    requires
        pos + p@.len() <= s@.len(),
    ensures
        r == (s@.subrange(pos as int, pos + p@.len()) == p@),
{
    let m = p.len();
    let n = s.len();
    let mut j: usize = 0;
    while j < m
        invariant
            m == p@.len(),
            n == s@.len(),
            pos + m <= n,
            j <= m,
            forall|k: int| 0 <= k < j ==> s@[pos + k] == p@[k],
        decreases m - j,
    {
        if s[pos + j] != p[j] {
            assert(s@.subrange(pos as int, pos + m)[j as int] != p@[j as int]);
            return false;
        }
        j = j + 1;
    }
    assert(s@.subrange(pos as int, pos + m) =~= p@);
    true
}

/// Splits `text` at each occurrence of `sep`, from left to right.
pub fn split(text: &str, sep: &str) -> (r: Vec<String>)
    ensures
        texts(r@) == split_text(text@, sep@),
{
    let s = chars_of(text);
    let p = chars_of(sep);
    let n = s.len();
    let m = p.len();
    let mut out: Vec<String> = Vec::new();
    if m == 0 {
        out.push(String::new());
        let mut i: usize = 0;
        while i < n
            invariant
                n == s@.len(),
                s@ == text@,
                i <= n,
                texts(out@) == seq![Seq::<char>::empty()] + s@.take(i as int).map_values(
                    |c: char| seq![c],
                ),
            decreases n - i,
        {
            let piece = text.substring_char(i, i + 1).to_string();
            proof {
                assert(piece@ =~= seq![s@[i as int]]);
                assert(s@.take(i + 1).map_values(|c: char| seq![c]) =~= s@.take(i as int).map_values(
                    |c: char| seq![c],
                ).push(seq![s@[i as int]]));
            }
            let ghost before = out@;
            out.push(piece);
            assert(texts(out@) =~= texts(before).push(piece@));
            i = i + 1;
        }
        out.push(String::new());
        assert(s@.take(n as int) =~= s@);
        assert(texts(out@) =~= split_text(text@, sep@));
        return out;
    }
    let mut start: usize = 0;
    let mut pos: usize = 0;
    while pos <= n && m <= n - pos
        invariant
            n == s@.len(),
            m == p@.len(),
            m > 0,
            s@ == text@,
            p@ == sep@,
            start <= pos <= n,
            texts(out@) + split_from(s@, p@, start as int, pos as int) == split_from(s@, p@, 0, 0),
        decreases n - pos,
    {
        if matches_at(&s, &p, pos) {
            let piece = text.substring_char(start, pos).to_string();
            let ghost before = out@;
            out.push(piece);
            assert(texts(out@) =~= texts(before).push(piece@));
            assert(texts(before) + split_from(s@, p@, start as int, pos as int) =~= texts(out@)
                + split_from(s@, p@, (pos + m) as int, (pos + m) as int));
            pos = pos + m;
            start = pos;
        } else {
            pos = pos + 1;
        }
    }
    let piece = text.substring_char(start, n).to_string();
    let ghost before = out@;
    out.push(piece);
    assert(texts(out@) =~= texts(before).push(piece@));
    assert(texts(out@) =~= texts(before) + split_from(s@, p@, start as int, pos as int));
    out
}

/// Whether `c` is white space in the sense of the Unicode `White_Space` property.
pub open spec fn is_white_space(c: char) -> bool {
    ||| ('\t' <= c && c <= '\r')
    ||| c == ' '
    ||| c == '\u{85}'
    ||| c == '\u{a0}'
    ||| c == '\u{1680}'
    ||| ('\u{2000}' <= c && c <= '\u{200a}')
    ||| c == '\u{2028}'
    ||| c == '\u{2029}'
    ||| c == '\u{202f}'
    ||| c == '\u{205f}'
    ||| c == '\u{3000}'
}

/// Whether `text` holds a white-space character.
pub fn has_whitespace(text: &str) -> (r: bool)
    ensures
        r == exists|i: int| 0 <= i < text@.len() && is_white_space(#[trigger] text@[i]),
{
    let chars = chars_of(text);
    let n = chars.len();
    let mut i: usize = 0;
    while i < n
        invariant
            n == chars@.len(),
            chars@ == text@,
            i <= n,
            forall|j: int| 0 <= j < i ==> !is_white_space(#[trigger] text@[j]),
        decreases n - i,
    {
        let c = chars[i];
        if ('\t' <= c && c <= '\r') || c == ' ' || c == '\u{85}' || c == '\u{a0}' || c == '\u{1680}'
            || ('\u{2000}' <= c && c <= '\u{200a}') || c == '\u{2028}' || c == '\u{2029}'
            || c == '\u{202f}' || c == '\u{205f}' || c == '\u{3000}' {
            assert(is_white_space(text@[i as int]));
            return true;
        }
        i = i + 1;
    }
    false
}

/// The pieces joined into one text, with `sep` between each two of them.
pub open spec fn join_with(pieces: Seq<Seq<char>>, sep: Seq<char>) -> Seq<char>
    decreases pieces.len(),
{
    if pieces.len() == 0 {
        Seq::empty()
    } else if pieces.len() == 1 {
        pieces[0]
    } else {
        pieces[0] + sep + join_with(pieces.drop_first(), sep)
    }
}

proof fn lemma_split_from_join(s: Seq<char>, sep: Seq<char>, start: int, pos: int)
    requires
        sep.len() > 0,
        0 <= start <= pos <= s.len(),
    ensures
        split_from(s, sep, start, pos).len() >= 1,
        join_with(split_from(s, sep, start, pos), sep) == s.subrange(start, s.len() as int),
    decreases s.len() - pos,
{
    if pos + sep.len() > s.len() {
    } else if s.subrange(pos, pos + sep.len()) == sep {
        let m = sep.len();
        lemma_split_from_join(s, sep, pos + m, pos + m);
        let rest = split_from(s, sep, pos + m, pos + m);
        let all = seq![s.subrange(start, pos)] + rest;
        assert(all.drop_first() =~= rest);
        assert(all[0] == s.subrange(start, pos));
        assert(s.subrange(start, s.len() as int) =~= s.subrange(start, pos) + s.subrange(pos, pos + m)
            + s.subrange(pos + m, s.len() as int));
    } else {
        lemma_split_from_join(s, sep, start, pos + 1);
    }
}

proof fn lemma_join_chars(s: Seq<char>)
    ensures
        join_with(s.map_values(|c: char| seq![c]) + seq![Seq::<char>::empty()], Seq::<char>::empty())
            == s,
    decreases s.len(),
{
    let e = Seq::<char>::empty();
    let p = s.map_values(|c: char| seq![c]) + seq![e];
    if s.len() == 0 {
        assert(p =~= seq![e]);
    } else {
        lemma_join_chars(s.drop_first());
        assert(p.drop_first() =~= s.drop_first().map_values(|c: char| seq![c]) + seq![e]);
        assert(p[0] == seq![s[0]]);
        assert(s =~= seq![s[0]] + e + s.drop_first());
    }
}

/// Joining the pieces of a split with the separator gives back the text, whatever the
/// text and the separator.
pub proof fn lemma_split_join(s: Seq<char>, sep: Seq<char>)
    ensures
        join_with(split_text(s, sep), sep) == s,
{
    if sep.len() == 0 {
        let e = Seq::<char>::empty();
        let tail = s.map_values(|c: char| seq![c]) + seq![e];
        let all = seq![e] + s.map_values(|c: char| seq![c]) + seq![e];
        assert(all =~= seq![e] + tail);
        assert(all.drop_first() =~= tail);
        lemma_join_chars(s);
        assert(all.len() >= 2);
        assert(e + sep + s =~= s);
    } else {
        lemma_split_from_join(s, sep, 0, 0);
        assert(s.subrange(0, s.len() as int) =~= s);
    }
}

/// How [`classify`] reads an argument can be undone: a long option is `--` and its name,
/// then `=` and its value if it has one; a cluster of short options is `-` and its flags;
/// a parameter is its name, `=` and its value. Names hold no `=` and are not empty.
pub proof fn lemma_classify_reconstructs(a: Seq<char>)
    ensures
        classify(a) matches CliArgView::Long { name, value } ==> {
            &&& name.len() > 0
            &&& !name.contains('=')
            &&& a == match value {
                Some(v) => seq!['-', '-'] + name + seq!['='] + v,
                None => seq!['-', '-'] + name,
            }
        },
        classify(a) matches CliArgView::Short { flags } ==> a == seq!['-'] + flags && flags.len() > 0,
        classify(a) matches CliArgView::Parameter(n, v) ==> {
            &&& n.len() > 0
            &&& !n.contains('=')
            &&& a == n + seq!['='] + v
        },
{
    if a == seq!['-'] || a == seq!['-', '-'] {
    } else if a.len() >= 2 && a[0] == '-' && a[1] == '-' {
        let rest = a.skip(2);
        assert(a =~= seq!['-', '-'] + rest);
        match first_index_of(rest, '=') {
            Some(i) => {
                assert(is_first_index(rest, '=', i)) by {
                    let w = choose|w: int| is_first_index(rest, '=', w);
                    assert(is_first_index(rest, '=', w));
                }
                assert(rest =~= rest.take(i) + seq!['='] + rest.skip(i + 1));
                assert(!rest.take(i).contains('=')) by {
                    if rest.take(i).contains('=') {
                        let j = choose|j: int| 0 <= j < rest.take(i).len() && rest.take(i)[j] == '=';
                        assert(rest[j] == '=');
                    }
                }
            },
            None => {
                assert(!rest.contains('=')) by {
                    if rest.contains('=') {
                        let j = choose|j: int| 0 <= j < rest.len() && rest[j] == '=';
                        lemma_exists_first(rest, '=', j);
                    }
                }
            },
        }
    } else if a.len() >= 1 && a[0] == '-' {
        assert(a =~= seq!['-'] + a.skip(1));
        if a.skip(1).len() == 0 {
            assert(a =~= seq!['-']);
        }
    } else {
        match first_index_of(a, '=') {
            Some(i) => {
                assert(is_first_index(a, '=', i)) by {
                    let w = choose|w: int| is_first_index(a, '=', w);
                    assert(is_first_index(a, '=', w));
                }
                assert(a =~= a.take(i) + seq!['='] + a.skip(i + 1));
                assert(!a.take(i).contains('=')) by {
                    if a.take(i).contains('=') {
                        let j = choose|j: int| 0 <= j < a.take(i).len() && a.take(i)[j] == '=';
                        assert(a[j] == '=');
                    }
                }
            },
            None => {},
        }
    }
}

/// A character that occurs has a first occurrence.
proof fn lemma_exists_first(s: Seq<char>, c: char, j: int)
    requires
        0 <= j < s.len(),
        s[j] == c,
    ensures
        first_index_of(s, c) is Some,
    decreases j,
{
    if forall|m: int| 0 <= m < j ==> s[m] != c {
        assert(is_first_index(s, c, j));
    } else {
        let m = choose|m: int| 0 <= m < j && s[m] == c;
        lemma_exists_first(s, c, m);
    }
}

/// Every character of `d` from position `i` on is a digit.
pub open spec fn all_digits_from(d: Seq<char>, i: int) -> bool {
    forall|k: int| i <= k < d.len() ==> is_digit(#[trigger] d[k])
}

proof fn lemma_scan_digits_ok(d: Seq<char>, neg: bool, i: int, acc: int)
    requires
        0 <= i,
    ensures
        scan_digits(d, neg, i, acc) is Value ==> all_digits_from(d, i),
    decreases d.len() - i,
{
    if i < d.len() && is_digit(d[i]) {
        let next = if neg {
            acc * 10 - digit_value(d[i])
        } else {
            acc * 10 + digit_value(d[i])
        };
        lemma_scan_digits_ok(d, neg, i + 1, next);
    }
}

/// [`parse_int`] accepts only an optional `+` or `-` followed by at least one digit.
pub proof fn lemma_int_text_shape(s: Seq<char>)
    ensures
        int_result(s) is Ok ==> {
            let d = if s[0] == '+' || s[0] == '-' {
                s.skip(1)
            } else {
                s
            };
            &&& s.len() > 0
            &&& d.len() > 0
            &&& all_digits_from(d, 0)
        },
{
    if s.len() > 0 && !(s == seq!['+'] || s == seq!['-']) {
        if s[0] == '+' {
            lemma_scan_digits_ok(s.skip(1), false, 0, 0);
            if s.skip(1).len() == 0 {
                assert(s =~= seq!['+']);
            }
        } else if s[0] == '-' {
            lemma_scan_digits_ok(s.skip(1), true, 0, 0);
            if s.skip(1).len() == 0 {
                assert(s =~= seq!['-']);
            }
        } else {
            lemma_scan_digits_ok(s, false, 0, 0);
        }
    }
}

/// The value of a text of decimal digits.
pub open spec fn digits_value(d: Seq<char>) -> int
    decreases d.len(),
{
    if d.len() == 0 {
        0
    } else {
        digits_value(d.drop_last()) * 10 + digit_value(d.last())
    }
}

/// The digits of an integer text: the text without its leading `+` or `-`.
pub open spec fn int_digits(s: Seq<char>) -> Seq<char> {
    if s.len() > 0 && (s[0] == '+' || s[0] == '-') {
        s.skip(1)
    } else {
        s
    }
}

/// A decimal integer text: an optional `+` or `-`, then at least one digit.
pub open spec fn is_int_text(s: Seq<char>) -> bool {
    &&& s.len() > 0
    &&& int_digits(s).len() > 0
    &&& all_digits_from(int_digits(s), 0)
}

/// The integer that a decimal integer text denotes.
pub open spec fn int_text_value(s: Seq<char>) -> int {
    if s.len() > 0 && s[0] == '-' {
        -digits_value(int_digits(s))
    } else {
        digits_value(int_digits(s))
    }
}

/// The decimal digits of a natural number, without leading zeros.
pub open spec fn decimal_text(n: nat) -> Seq<char>
    decreases n,
{
    if n < 10 {
        seq![(n + ('0' as int)) as char]
    } else {
        decimal_text(n / 10).push(((n % 10) + ('0' as int)) as char)
    }
}

/// The decimal text of an integer: `-` before the digits of a negative one.
pub open spec fn int_text(n: int) -> Seq<char> {
    if n < 0 {
        seq!['-'] + decimal_text((-n) as nat)
    } else {
        decimal_text(n as nat)
    }
}

proof fn lemma_decimal_text(n: nat)
    ensures
        decimal_text(n).len() > 0,
        all_digits_from(decimal_text(n), 0),
        digits_value(decimal_text(n)) == n,
    decreases n,
{
    let t = decimal_text(n);
    if n < 10 {
        assert(t.drop_last() =~= Seq::<char>::empty());
        let c = (n + ('0' as int)) as char;
        assert(c as int == n + ('0' as int));
        assert(digit_value(t.last()) == n);
        assert(digits_value(t.drop_last()) == 0);
    } else {
        lemma_decimal_text(n / 10);
        let p = decimal_text(n / 10);
        assert(t.drop_last() =~= p);
        let c = ((n % 10) + ('0' as int)) as char;
        assert(c as int == (n % 10) + ('0' as int));
        assert(digit_value(t.last()) == n % 10);
        assert(digits_value(t) == digits_value(p) * 10 + n % 10);
        assert(n == (n / 10) * 10 + n % 10) by (nonlinear_arith);
        assert forall|k: int| 0 <= k < t.len() implies is_digit(#[trigger] t[k]) by {
            if k < p.len() {
                assert(t[k] == p[k]);
            }
        }
    }
}

/// The value of a prefix of digits is no more than the value of a longer prefix.
proof fn lemma_prefix_value_grows(d: Seq<char>, j: int, k: int)
    requires
        0 <= j <= k <= d.len(),
        all_digits_from(d, 0),
    ensures
        0 <= digits_value(d.take(j)) <= digits_value(d.take(k)),
    decreases k - j,
{
    if j < k {
        lemma_prefix_value_grows(d, j, k - 1);
        assert(d.take(k).drop_last() =~= d.take(k - 1));
        assert(d.take(k).last() == d[k - 1]);
        assert(is_digit(d[k - 1]));
    } else {
        lemma_prefix_nonneg(d, j);
    }
}

proof fn lemma_prefix_nonneg(d: Seq<char>, j: int)
    requires
        0 <= j <= d.len(),
        all_digits_from(d, 0),
    ensures
        digits_value(d.take(j)) >= 0,
    decreases j,
{
    if j > 0 {
        lemma_prefix_nonneg(d, j - 1);
        assert(d.take(j).drop_last() =~= d.take(j - 1));
        assert(d.take(j).last() == d[j - 1]);
        assert(is_digit(d[j - 1]));
    }
}

/// The digit scan of a text of digits, from position `j` with the value read so far,
/// ends with the value of all the digits, or with an overflow when it is out of range.
proof fn lemma_scan_all_digits(d: Seq<char>, neg: bool, j: int)
    requires
        0 <= j <= d.len(),
        all_digits_from(d, 0),
        i64::MIN <= (if neg { -digits_value(d.take(j)) } else { digits_value(d.take(j)) }) <= i64::MAX,
    ensures
        ({
            let v = if neg { -digits_value(d) } else { digits_value(d) };
            scan_digits(d, neg, j, if neg { -digits_value(d.take(j)) } else { digits_value(d.take(j)) })
                == if i64::MIN <= v <= i64::MAX {
                IntReading::Value(v as i64)
            } else if neg {
                IntReading::NegOverflow
            } else {
                IntReading::PosOverflow
            }
        }),
    decreases d.len() - j,
{
    let acc = if neg { -digits_value(d.take(j)) } else { digits_value(d.take(j)) };
    if j == d.len() {
        assert(d.take(j) =~= d);
    } else {
        assert(d.take(j + 1).drop_last() =~= d.take(j));
        assert(d.take(j + 1).last() == d[j]);
        assert(is_digit(d[j]));
        lemma_prefix_value_grows(d, j + 1, d.len() as int);
        assert(d.take(d.len() as int) =~= d);
        let next = if neg { -digits_value(d.take(j + 1)) } else { digits_value(d.take(j + 1)) };
        if i64::MIN <= next <= i64::MAX {
            lemma_scan_all_digits(d, neg, j + 1);
        }
    }
}

/// [`parse_int`] accepts exactly the decimal integer texts whose value fits in an `i64`,
/// and gives that value; a decimal integer text out of range gives
/// [`ArgotError::UnsafeInteger`] with the text; any other text gives an error.
pub proof fn lemma_int_result_exact(s: Seq<char>)
    ensures
        is_int_text(s) && i64::MIN <= int_text_value(s) <= i64::MAX ==> int_result(s) == Ok::<
            i64,
            ErrorView,
        >(int_text_value(s) as i64),
        is_int_text(s) && !(i64::MIN <= int_text_value(s) <= i64::MAX) ==> int_result(s) == Err::<
            i64,
            ErrorView,
        >(ErrorView::UnsafeInteger { value: s }),
        !is_int_text(s) ==> int_result(s) is Err,
{
    if is_int_text(s) {
        let d = int_digits(s);
        assert(d.take(0) =~= Seq::<char>::empty());
        assert(s != seq!['+'] && s != seq!['-']) by {
            if s == seq!['+'] || s == seq!['-'] {
                assert(s.skip(1).len() == 0);
            }
        }
        if s[0] == '-' {
            lemma_scan_all_digits(d, true, 0);
        } else {
            lemma_scan_all_digits(d, false, 0);
        }
    } else {
        lemma_int_text_shape(s);
    }
}

/// The decimal text of every `i64` reads back as that integer.
pub proof fn lemma_int_text_round_trip(n: i64)
    ensures
        is_int_text(int_text(n as int)),
        int_text_value(int_text(n as int)) == n,
        int_result(int_text(n as int)) == Ok::<i64, ErrorView>(n),
{
    let m: nat = if n < 0 { (-n) as nat } else { n as nat };
    lemma_decimal_text(m);
    let t = int_text(n as int);
    let d = decimal_text(m);
    if n < 0 {
        assert(t[0] == '-');
        assert(t.skip(1) =~= d);
    } else {
        assert(is_digit(d[0]));
        assert(t =~= d);
    }
    assert(int_digits(t) =~= d);
    lemma_int_result_exact(t);
}

/// Joining one more piece adds the separator and the piece at the end.
proof fn lemma_join_push(p: Seq<Seq<char>>, x: Seq<char>, sep: Seq<char>)
    ensures
        join_with(p.push(x), sep) == if p.len() == 0 {
            x
        } else {
            join_with(p, sep) + sep + x
        },
    decreases p.len(),
{
    let q = p.push(x);
    if p.len() == 1 {
        assert(q.drop_first() =~= seq![x]);
        assert(join_with(q.drop_first(), sep) == x);
    } else if p.len() > 1 {
        assert(q.drop_first() =~= p.drop_first().push(x));
        lemma_join_push(p.drop_first(), x, sep);
        assert(p[0] + sep + (join_with(p.drop_first(), sep) + sep + x) =~= (p[0] + sep
            + join_with(p.drop_first(), sep)) + sep + x);
    }
}

/// Renders a list value for display: the items joined with `sep`, with one more `sep`
/// at the end when `followed` says that other values came after the items; and whether
/// any item holds white space (so that the text should be quoted).
pub fn render_list(items: &[String], sep: &str, followed: bool) -> (r: (String, bool))
    ensures
        r.0@ == join_with(texts(items@), sep@) + (if followed && items@.len() > 0 {
            sep@
        } else {
            Seq::<char>::empty()
        }),
        r.1 == exists|i: int, j: int|
            0 <= i < items@.len() && 0 <= j < items@[i]@.len() && is_white_space(
                #[trigger] items@[i]@[j],
            ),
{
    let n = items.len();
    let mut out = String::new();
    let mut quote = false;
    let mut i: usize = 0;
    while i < n
        invariant
            n == items@.len(),
            i <= n,
            out@ == join_with(texts(items@.take(i as int)), sep@),
            quote == exists|a: int, j: int|
                0 <= a < i && 0 <= j < items@[a]@.len() && is_white_space(#[trigger] items@[a]@[j]),
        decreases n - i,
    {
        let item = &items[i];
        if has_whitespace(item.as_str()) {
            quote = true;
        }
        proof {
            let before = texts(items@.take(i as int));
            assert(texts(items@.take(i + 1)) =~= before.push(item@));
            lemma_join_push(before, item@, sep@);
        }
        if i > 0 {
            out.append(sep);
        }
        out.append(item.as_str());
        i = i + 1;
    }
    assert(items@.take(n as int) =~= items@);
    if followed && n > 0 {
        out.append(sep);
    }
    (out, quote)
}

/// Every argument that does not begin with `-` and has a non-empty name before its first
/// `=` is a parameter: the name is what comes before that `=`, the value all that follows.
pub proof fn lemma_parameter_word(n: Seq<char>, v: Seq<char>)
    requires
        n.len() > 0,
        n[0] != '-',
        !n.contains('='),
    ensures
        classify(n + seq!['='] + v) == (CliArgView::Parameter(n, v)),
{
    let a = n + seq!['='] + v;
    assert(a[0] == n[0]);
    assert(a[n.len() as int] == '=');
    assert forall|j: int| 0 <= j < n.len() implies a[j] != '=' by {
        assert(a[j] == n[j]);
        if n[j] == '=' {
            assert(n.contains('='));
        }
    }
    lemma_first_index_found(a, '=', n.len() as int);
    assert(a.take(n.len() as int) =~= n);
    assert(a.skip(n.len() as int + 1) =~= v);
    if a == seq!['-'] || a == seq!['-', '-'] {
        assert(a[0] == '-');
    }
}

} // verus!
