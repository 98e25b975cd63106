//! Character-level text utilities: the views of `str`/`String` are `Seq<char>`,
//! and everything here is stated over those sequences.
use vstd::prelude::*;
use vstd::utf8::*;

verus! {

/// Unicode `White_Space`, the property that `char::is_whitespace` tests.
pub open spec fn is_whitespace(c: char) -> bool {
    let u = c as u32;
    ||| 0x9 <= u <= 0xd
    ||| u == 0x20
    ||| u == 0x85
    ||| u == 0xa0
    ||| u == 0x1680
    ||| 0x2000 <= u <= 0x200a
    ||| u == 0x2028
    ||| u == 0x2029
    ||| u == 0x202f
    ||| u == 0x205f
    ||| u == 0x3000
}

/// The ASCII whitespace set of `u8::is_ascii_whitespace`: space, tab, line feed,
/// form feed and carriage return.
pub open spec fn is_ascii_whitespace(c: char) -> bool {
    c == ' ' || c == '\t' || c == '\n' || c == '\x0C' || c == '\r'
}

pub open spec fn is_digit(c: char) -> bool {
    '0' <= c <= '9'
}

pub fn char_is_whitespace(c: char) -> (b: bool)
    ensures
        b == is_whitespace(c),
{
    let u = c as u32;
    (0x9 <= u && u <= 0xd) || u == 0x20 || u == 0x85 || u == 0xa0 || u == 0x1680 || (0x2000 <= u
        && u <= 0x200a) || u == 0x2028 || u == 0x2029 || u == 0x202f || u == 0x205f || u == 0x3000
}

pub fn char_is_ascii_whitespace(c: char) -> (b: bool)
    ensures
        b == is_ascii_whitespace(c),
{
    c == ' ' || c == '\t' || c == '\n' || c == '\x0C' || c == '\r'
}

pub fn char_is_digit(c: char) -> (b: bool)
    ensures
        b == is_digit(c),
{
    '0' <= c && c <= '9'
}

/// The characters of `s`, in order.
pub fn to_chars(s: &str) -> (v: Vec<char>)
    ensures
        v@ == s@,
{
    let mut v: Vec<char> = Vec::new();
    for c in it: s.chars()
        invariant
            v@ == it.seq().take(it.index() as int),
            it.seq() == s@,
    {
        v.push(c);
    }
    v
}

/// `String::push`.
#[verifier::external_body]
fn string_push(s: &mut String, c: char)
    ensures
        final(s)@ == old(s)@.push(c),
{
    s.push(c);
}

/// The string made of the characters of `v`.
pub fn from_chars(v: &Vec<char>) -> (s: String)
    ensures
        s@ == v@,
{
    let mut s = String::new();
    for i in 0..v.len()
        invariant
            s@ == v@.take(i as int),
    {
        string_push(&mut s, v[i]);
    }
    s
}

/// The elements `lo..hi` of `v`, copied.
pub fn copy_range<T: Copy>(v: &Vec<T>, lo: usize, hi: usize) -> (r: Vec<T>)
    requires
        lo <= hi <= v.len(),
    ensures
        r@ == v@.subrange(lo as int, hi as int),
{
    let mut r: Vec<T> = Vec::new();
    let mut i = lo;
    while i < hi
        invariant
            lo <= i <= hi <= v.len(),
            r@ == v@.subrange(lo as int, i as int),
        decreases hi - i,
    {
        r.push(v[i]);
        i += 1;
    }
    r
}

/// Whether `a` and `b` hold the same elements.
pub fn chars_eq(a: &Vec<char>, b: &Vec<char>) -> (r: bool)
    ensures
        r == (a@ == b@),
{
    if a.len() != b.len() {
        return false;
    }
    for i in 0..a.len()
        invariant
            a.len() == b.len(),
            forall|j: int| 0 <= j < i ==> a@[j] == b@[j],
    {
        if a[i] != b[i] {
            return false;
        }
    }
    assert(a@ =~= b@);
    true
}


/// What a trimming function strips: whitespace (as `str::trim` does) or one given character
/// (as `trim_matches(c)` does).
#[derive(Clone, Copy)]
pub enum Strip {
    Whitespace,
    Char(char),
}

pub open spec fn strips(p: Strip, c: char) -> bool {
    match p {
        Strip::Whitespace => is_whitespace(c),
        Strip::Char(d) => c == d,
    }
}

fn strips_exec(p: Strip, c: char) -> (b: bool)
    ensures
        b == strips(p, c),
{
    match p {
        Strip::Whitespace => char_is_whitespace(c),
        Strip::Char(d) => c == d,
    }
}

/// `s` without its leading characters that `p` strips.
pub open spec fn trim_start_by(s: Seq<char>, p: Strip) -> Seq<char>
    decreases s.len(),
{
    if s.len() > 0 && strips(p, s[0]) {
        trim_start_by(s.drop_first(), p)
    } else {
        s
    }
}

/// `s` without its trailing characters that `p` strips.
pub open spec fn trim_end_by(s: Seq<char>, p: Strip) -> Seq<char>
    decreases s.len(),
{
    if s.len() > 0 && strips(p, s.last()) {
        trim_end_by(s.drop_last(), p)
    } else {
        s
    }
}

/// `str::trim`: leading and trailing whitespace removed.
pub open spec fn trim(s: Seq<char>) -> Seq<char> {
    trim_end_by(trim_start_by(s, Strip::Whitespace), Strip::Whitespace)
}

/// `trim_matches(c)`: leading and trailing `c` removed.
pub open spec fn trim_char(s: Seq<char>, c: char) -> Seq<char> {
    trim_end_by(trim_start_by(s, Strip::Char(c)), Strip::Char(c))
}

proof fn lemma_trim_start_push(p: Seq<char>, c: char, st: Strip)
    ensures
        trim_start_by(p.push(c), st) == if trim_start_by(p, st).len() > 0 {
            trim_start_by(p, st).push(c)
        } else {
            trim_start_by(seq![c], st)
        },
    decreases p.len(),
{
    if p.len() == 0 {
        assert(p.push(c) =~= seq![c]);
    } else if strips(st, p[0]) {
        assert(p.push(c).drop_first() =~= p.drop_first().push(c));
        lemma_trim_start_push(p.drop_first(), c, st);
    }
}

proof fn lemma_trim_start_first(p: Seq<char>, st: Strip)
    ensures
        trim_start_by(p, st).len() > 0 ==> !strips(st, trim_start_by(p, st)[0]),
    decreases p.len(),
{
    if p.len() > 0 && strips(st, p[0]) {
        lemma_trim_start_first(p.drop_first(), st);
    }
}

proof fn lemma_trim_end_prefix(p: Seq<char>, st: Strip)
    ensures
        trim_end_by(p, st).len() <= p.len(),
        forall|k: int| 0 <= k < trim_end_by(p, st).len() ==> #[trigger] trim_end_by(p, st)[k] == p[k],
    decreases p.len(),
{
    if p.len() > 0 && strips(st, p.last()) {
        lemma_trim_end_prefix(p.drop_last(), st);
    }
}

/// A trimmed text that is not empty starts with a character that is not whitespace.
pub proof fn lemma_trim_first(p: Seq<char>)
    ensures
        trim(p).len() > 0 ==> !is_whitespace(trim(p)[0]),
{
    lemma_trim_start_first(p, Strip::Whitespace);
    lemma_trim_end_prefix(trim_start_by(p, Strip::Whitespace), Strip::Whitespace);
}

/// Whitespace added at the end of a text does not change the text trimmed.
pub proof fn lemma_trim_push_whitespace(p: Seq<char>, c: char)
    requires
        is_whitespace(c),
    ensures
        trim(p.push(c)) == trim(p),
{
    let ws = Strip::Whitespace;
    lemma_trim_start_push(p, c, ws);
    let t = trim_start_by(p, ws);
    if t.len() > 0 {
        assert(t.push(c).drop_last() =~= t);
        assert(t.push(c).last() == c);
        assert(trim_end_by(t.push(c), ws) == trim_end_by(t, ws));
    } else {
        assert(seq![c].drop_first() =~= Seq::<char>::empty());
        assert(trim_start_by(seq![c], ws) == trim_start_by(Seq::<char>::empty(), ws));
        assert(trim_start_by(Seq::<char>::empty(), ws) =~= Seq::<char>::empty());
    }
}

/// The index at which `s[lo..hi]` starts once its leading stripped characters are removed.
pub fn trim_start_index(s: &Vec<char>, lo: usize, hi: usize, p: Strip) -> (i: usize)
    requires
        lo <= hi <= s.len(),
    ensures
        lo <= i <= hi,
        trim_start_by(s@.subrange(lo as int, hi as int), p) == s@.subrange(i as int, hi as int),
{
    let mut i = lo;
    while i < hi && strips_exec(p, s[i])
        invariant
            lo <= i <= hi <= s.len(),
            trim_start_by(s@.subrange(lo as int, hi as int), p) == trim_start_by(
                s@.subrange(i as int, hi as int),
                p,
            ),
        decreases hi - i,
    {
        assert(s@.subrange(i as int, hi as int).drop_first() == s@.subrange(i + 1, hi as int));
        i += 1;
    }
    i
}

/// The index at which `s[lo..hi]` ends once its trailing stripped characters are removed.
pub fn trim_end_index(s: &Vec<char>, lo: usize, hi: usize, p: Strip) -> (j: usize)
    requires
        lo <= hi <= s.len(),
    ensures
        lo <= j <= hi,
        trim_end_by(s@.subrange(lo as int, hi as int), p) == s@.subrange(lo as int, j as int),
{
    let mut j = hi;
    while j > lo && strips_exec(p, s[j - 1])
        invariant
            lo <= j <= hi <= s.len(),
            trim_end_by(s@.subrange(lo as int, hi as int), p) == trim_end_by(
                s@.subrange(lo as int, j as int),
                p,
            ),
        decreases j - lo,
    {
        assert(s@.subrange(lo as int, j as int).drop_last() == s@.subrange(lo as int, j - 1));
        j -= 1;
    }
    j
}

/// The bounds of `s[lo..hi]` with leading and trailing stripped characters removed.
pub fn trim_range(s: &Vec<char>, lo: usize, hi: usize, p: Strip) -> (r: (usize, usize))
    requires
        lo <= hi <= s.len(),
    ensures
        lo <= r.0 <= r.1 <= hi,
        trim_end_by(trim_start_by(s@.subrange(lo as int, hi as int), p), p) == s@.subrange(
            r.0 as int,
            r.1 as int,
        ),
{
    let i = trim_start_index(s, lo, hi, p);
    let j = trim_end_index(s, i, hi, p);
    (i, j)
}

/// `str::trim` on `s[lo..hi]`, copied.
pub fn trimmed(s: &Vec<char>, lo: usize, hi: usize) -> (r: Vec<char>)
    requires
        lo <= hi <= s.len(),
    ensures
        r@ == trim(s@.subrange(lo as int, hi as int)),
{
    let (i, j) = trim_range(s, lo, hi, Strip::Whitespace);
    copy_range(s, i, j)
}


/// The words of `s[i..]`, where `cur` is the part of a word already read: the maximal runs of
/// characters that are not whitespace, in order.
pub open spec fn words_from(s: Seq<char>, i: int, cur: Seq<char>) -> Seq<Seq<char>>
    decreases s.len() - i,
{
    if i >= s.len() {
        flush(cur)
    } else if is_whitespace(s[i]) {
        flush(cur) + words_from(s, i + 1, seq![])
    } else {
        words_from(s, i + 1, cur.push(s[i]))
    }
}

/// The word being read, if there is one, as a list of words.
pub open spec fn flush(cur: Seq<char>) -> Seq<Seq<char>> {
    if cur.len() > 0 {
        seq![cur]
    } else {
        seq![]
    }
}

/// `str::split_whitespace`: the maximal runs of non-whitespace characters of `s`.
pub open spec fn words(s: Seq<char>) -> Seq<Seq<char>> {
    words_from(s, 0, seq![])
}

/// The views of a list of character vectors.
pub open spec fn views(v: Seq<Vec<char>>) -> Seq<Seq<char>> {
    v.map_values(|w: Vec<char>| w@)
}

pub proof fn lemma_views_push(v: Seq<Vec<char>>, w: Vec<char>)
    ensures
        views(v.push(w)) == views(v).push(w@),
{
}

/// `str::split_whitespace` on `s[lo..hi]`.
pub fn split_words(s: &Vec<char>, lo: usize, hi: usize) -> (r: Vec<Vec<char>>)
    requires
        lo <= hi <= s.len(),
    ensures
        views(r@) == words(s@.subrange(lo as int, hi as int)),
{
    let ghost t = s@.subrange(lo as int, hi as int);
    let mut out: Vec<Vec<char>> = Vec::new();
    let mut cur: Vec<char> = Vec::new();
    let mut i = lo;
    while i < hi
        invariant
            lo <= i <= hi <= s.len(),
            t == s@.subrange(lo as int, hi as int),
            views(out@) + words_from(t, i - lo, cur@) == words(t),
        decreases hi - i,
    {
        let ghost before = views(out@);
        let ghost old_cur = cur@;
        if char_is_whitespace(s[i]) {
            if cur.len() > 0 {
                proof {
                    lemma_views_push(out@, cur);
                }
                out.push(cur);
            }
            cur = Vec::new();
            assert(before + (flush(old_cur) + words_from(t, i + 1 - lo, seq![])) == views(out@)
                + words_from(t, i + 1 - lo, cur@));
        } else {
            cur.push(s[i]);
        }
        i += 1;
    }
    if cur.len() > 0 {
        proof {
            lemma_views_push(out@, cur);
        }
        out.push(cur);
    }
    out
}

/// The value of a decimal digit.
pub open spec fn digit_value(c: char) -> int {
    c as int - '0' as int
}

/// The number that the decimal digits `s` spell.
pub open spec fn digits_value(s: Seq<char>) -> int
    decreases s.len(),
{
    if s.len() == 0 {
        0
    } else {
        digits_value(s.drop_last()) * 10 + digit_value(s.last())
    }
}

pub open spec fn all_digits(s: Seq<char>) -> bool {
    forall|i: int| 0 <= i < s.len() ==> is_digit(#[trigger] s[i])
}

/// What `str::parse` gives for an integer type: an optional sign (`-` only where `signed`),
/// then one or more decimal digits, and nothing else.
pub open spec fn parse_int(s: Seq<char>, signed: bool) -> Option<int> {
    if s.len() > 0 && (s[0] == '+' || (signed && s[0] == '-')) {
        let d = s.drop_first();
        if d.len() > 0 && all_digits(d) {
            Some(
                if s[0] == '-' {
                    -digits_value(d)
                } else {
                    digits_value(d)
                },
            )
        } else {
            None
        }
    } else if s.len() > 0 && all_digits(s) {
        Some(digits_value(s))
    } else {
        None
    }
}

/// `str::parse` of an integer type whose values are `min..=max`: `None` where the text is
/// not a number or the number is out of range.
pub open spec fn parse_int_in(s: Seq<char>, signed: bool, min: int, max: int) -> Option<int> {
    match parse_int(s, signed) {
        Some(v) => if min <= v <= max {
            Some(v)
        } else {
            None
        },
        None => None,
    }
}

pub open spec fn parse_i32(s: Seq<char>) -> Option<i32> {
    match parse_int_in(s, true, i32::MIN as int, i32::MAX as int) {
        Some(v) => Some(v as i32),
        None => None,
    }
}

pub open spec fn parse_i64(s: Seq<char>) -> Option<i64> {
    match parse_int_in(s, true, i64::MIN as int, i64::MAX as int) {
        Some(v) => Some(v as i64),
        None => None,
    }
}

pub open spec fn parse_u32(s: Seq<char>) -> Option<u32> {
    match parse_int_in(s, false, 0, u32::MAX as int) {
        Some(v) => Some(v as u32),
        None => None,
    }
}

/// The number that `s[lo..hi]` spells as an integer of the range `min..=max`.
fn parse_int_range(s: &Vec<char>, lo: usize, hi: usize, signed: bool, min: i128, max: i128) -> (r:
    Option<i128>)
    requires
        lo <= hi <= s.len(),
        -0x8000_0000_0000_0000 <= min <= max <= 0x8000_0000_0000_0000,
    ensures
        r == match parse_int_in(s@.subrange(lo as int, hi as int), signed, min as int, max as int) {
            Some(v) => Some(v as i128),
            None => None::<i128>,
        },
{
    let ghost t = s@.subrange(lo as int, hi as int);
    let cap: i128 = 0x1_0000_0000_0000_0000;
    let mut i = lo;
    let mut neg = false;
    if i < hi && (s[i] == '+' || (signed && s[i] == '-')) {
        neg = s[i] == '-';
        i += 1;
    }
    if i == hi {
        return None;
    }
    let start = i;
    let mut acc: i128 = 0;
    while i < hi
        invariant
            lo <= start <= i <= hi <= s.len(),
            start < hi,
            t == s@.subrange(lo as int, hi as int),
            start == lo || (start == lo + 1 && (s@[lo as int] == '+' || (signed && s@[lo as int]
                == '-'))),
            start == lo ==> !(s@[lo as int] == '+' || (signed && s@[lo as int] == '-')),
            neg == (start == lo + 1 && s@[lo as int] == '-'),
            all_digits(s@.subrange(start as int, i as int)),
            acc == if digits_value(s@.subrange(start as int, i as int)) < cap {
                digits_value(s@.subrange(start as int, i as int))
            } else {
                cap as int
            },
            cap == 0x1_0000_0000_0000_0000,
            0 <= acc <= cap,
        decreases hi - i,
    {
        if !char_is_digit(s[i]) {
            assert(!all_digits(s@.subrange(start as int, hi as int))) by {
                assert(s@.subrange(start as int, hi as int)[i - start] == s@[i as int]);
            }
            assert(start == lo || s@.subrange(start as int, hi as int) == t.drop_first());
            return None;
        }
        let ghost pre = s@.subrange(start as int, i as int);
        assert(s@.subrange(start as int, i + 1).drop_last() == pre);
        let d = ((s[i] as u32) - ('0' as u32)) as i128;
        acc = acc * 10 + d;
        if acc > cap {
            acc = cap;
        }
        i += 1;
    }
    assert(start == lo || s@.subrange(start as int, hi as int) == t.drop_first());
    let v = if neg {
        -acc
    } else {
        acc
    };
    if min <= v && v <= max {
        Some(v)
    } else {
        None
    }
}

/// `i32::from_str` on `s[lo..hi]`.
pub fn parse_i32_range(s: &Vec<char>, lo: usize, hi: usize) -> (r: Option<i32>)
    requires
        lo <= hi <= s.len(),
    ensures
        r == parse_i32(s@.subrange(lo as int, hi as int)),
{
    match parse_int_range(s, lo, hi, true, i32::MIN as i128, i32::MAX as i128) {
        Some(v) => Some(v as i32),
        None => None,
    }
}

/// `i64::from_str` on `s[lo..hi]`.
pub fn parse_i64_range(s: &Vec<char>, lo: usize, hi: usize) -> (r: Option<i64>)
    requires
        lo <= hi <= s.len(),
    ensures
        r == parse_i64(s@.subrange(lo as int, hi as int)),
{
    match parse_int_range(s, lo, hi, true, i64::MIN as i128, i64::MAX as i128) {
        Some(v) => Some(v as i64),
        None => None,
    }
}

/// `u32::from_str` on `s[lo..hi]`.
pub fn parse_u32_range(s: &Vec<char>, lo: usize, hi: usize) -> (r: Option<u32>)
    requires
        lo <= hi <= s.len(),
    ensures
        r == parse_u32(s@.subrange(lo as int, hi as int)),
{
    match parse_int_range(s, lo, hi, false, 0, u32::MAX as i128) {
        Some(v) => Some(v as u32),
        None => None,
    }
}

/// The character of a decimal digit.
pub open spec fn digit_char(d: nat) -> char {
    (d + 48) as char
}

/// The decimal numeral of `n` (what `to_string` gives for an unsigned integer).
pub open spec fn decimal(n: nat) -> Seq<char>
    decreases n,
{
    if n < 10 {
        seq![digit_char(n)]
    } else {
        decimal(n / 10).push(digit_char(n % 10))
    }
}

/// The decimal numeral of `n` is made of digits, spells `n`, and has no leading zero.
pub proof fn lemma_decimal(n: nat)
    ensures
        decimal(n).len() > 0,
        all_digits(decimal(n)),
        digits_value(decimal(n)) == n,
        decimal(n).len() > 1 ==> decimal(n)[0] != '0',
        decimal(n).len() == 1 <==> n < 10,
    decreases n,
{
    lemma_digit_char(n % 10);
    if n >= 10 {
        lemma_decimal(n / 10);
        lemma_digit_char(n / 10 % 10);
        let d = decimal(n / 10);
        assert(decimal(n).drop_last() =~= d);
        assert(decimal(n).last() == digit_char(n % 10));
        assert(digits_value(decimal(n)) == digits_value(d) * 10 + digit_value(digit_char(n % 10)));
        assert((n / 10) * 10 + n % 10 == n);
        assert(decimal(n)[0] == d[0]);
        if d.len() == 1 {
            lemma_digit_char(n / 10);
        }
    } else {
        assert(decimal(n).drop_last() =~= Seq::<char>::empty());
        assert(digits_value(decimal(n)) == digits_value(Seq::<char>::empty()) * 10 + digit_value(
            digit_char(n),
        ));
    }
}

proof fn lemma_digit_char(k: nat)
    requires
        k < 10,
    ensures
        is_digit(digit_char(k)),
        digit_value(digit_char(k)) == k,
        k != 0 ==> digit_char(k) != '0',
{
    assert(((k + 48) as char) as int == k + 48);
}

/// The decimal numeral of `n`.
pub fn decimal_chars(n: u32) -> (r: Vec<char>)
    ensures
        r@ == decimal(n as nat),
    decreases n,
{
    let mut r = if n < 10 {
        Vec::new()
    } else {
        decimal_chars(n / 10)
    };
    let d = (n % 10) as u8;
    r.push((d + 48) as char);
    r
}

/// The UTF-8 encoding of `c`.
pub fn encode_char(c: char) -> (r: Vec<u8>)
    ensures
        r@ == encode_scalar(c as u32),
{
    let u = c as u32;
    if u <= 0x7F {
        vec![(u & 0x7F) as u8]
    } else if u <= 0x7FF {
        vec![0xC0 | ((u >> 6) & 0x1F) as u8, 0x80 | (u & 0x3F) as u8]
    } else if u <= 0xFFFF {
        vec![0xE0 | ((u >> 12) & 0x0F) as u8, 0x80 | ((u >> 6) & 0x3F) as u8, 0x80 | (u & 0x3F) as u8]
    } else {
        vec![
            0xF0 | ((u >> 18) & 0x7) as u8,
            0x80 | ((u >> 12) & 0x3F) as u8,
            0x80 | ((u >> 6) & 0x3F) as u8,
            0x80 | (u & 0x3F) as u8,
        ]
    }
}


/// The first index `j >= i` with `s[j] == c`, if any.
pub open spec fn index_of_from(s: Seq<char>, i: int, c: char) -> Option<int>
    decreases s.len() - i,
{
    if i < 0 || i >= s.len() {
        None
    } else if s[i] == c {
        Some(i)
    } else {
        index_of_from(s, i + 1, c)
    }
}

pub proof fn lemma_index_of_from(s: Seq<char>, i: int, c: char)
    requires
        0 <= i,
    ensures
        index_of_from(s, i, c) matches Some(j) ==> i <= j < s.len() && s[j] == c && forall|k: int|
            i <= k < j ==> s[k] != c,
        index_of_from(s, i, c) is None ==> forall|k: int| i <= k < s.len() ==> s[k] != c,
    decreases s.len() - i,
{
    if i < s.len() && s[i] != c {
        lemma_index_of_from(s, i + 1, c);
    }
}

/// The first index `j` in `lo..hi` with `s[j] == c`, if any.
pub fn find_char(s: &Vec<char>, lo: usize, hi: usize, c: char) -> (r: Option<usize>)
    requires
        lo <= hi <= s.len(),
    ensures
        r matches Some(j) ==> lo <= j < hi && s@[j as int] == c && forall|k: int|
            lo <= k < j ==> s@[k] != c,
        r is None ==> forall|k: int| lo <= k < hi ==> s@[k] != c,
{
    let mut i = lo;
    while i < hi
        invariant
            lo <= i <= hi <= s.len(),
            forall|k: int| lo <= k < i ==> s@[k] != c,
        decreases hi - i,
    {
        if s[i] == c {
            return Some(i);
        }
        i += 1;
    }
    None
}


/// The first index `j >= i` at which `pat` occurs in `s`, if any (`str::find`).
pub open spec fn find_sub_from(s: Seq<char>, pat: Seq<char>, i: int) -> Option<int>
    decreases s.len() + 1 - i,
{
    if i < 0 || i > s.len() || i + pat.len() > s.len() {
        None
    } else if s.subrange(i, i + pat.len()) == pat {
        Some(i)
    } else {
        find_sub_from(s, pat, i + 1)
    }
}

/// The first index at which `pat` occurs in `s`, if any.
pub open spec fn find_sub(s: Seq<char>, pat: Seq<char>) -> Option<int> {
    find_sub_from(s, pat, 0)
}

pub proof fn lemma_find_sub_from(s: Seq<char>, pat: Seq<char>, i: int)
    ensures
        find_sub_from(s, pat, i) matches Some(j) ==> i <= j && j + pat.len() <= s.len()
            && s.subrange(j, j + pat.len()) == pat,
    decreases s.len() + 1 - i,
{
    if !(i < 0 || i > s.len() || i + pat.len() > s.len()) && s.subrange(i, i + pat.len()) != pat {
        lemma_find_sub_from(s, pat, i + 1);
    }
}

pub proof fn lemma_find_sub(s: Seq<char>, pat: Seq<char>)
    ensures
        find_sub(s, pat) matches Some(j) ==> 0 <= j && j + pat.len() <= s.len() && s.subrange(
            j,
            j + pat.len(),
        ) == pat,
{
    lemma_find_sub_from(s, pat, 0);
}

/// Whether `pat` occurs in `s` at `i`.
fn occurs_at(s: &Vec<char>, pat: &Vec<char>, i: usize) -> (b: bool)
    requires
        i + pat.len() <= s.len(),
    ensures
        b == (s@.subrange(i as int, i + pat.len()) == pat@),
{
    let mut k: usize = 0;
    while k < pat.len()
        invariant
            i + pat.len() <= s.len(),
            k <= pat.len(),
            forall|j: int| 0 <= j < k ==> s@[i + j] == pat@[j],
        decreases pat.len() - k,
    {
        if s[i + k] != pat[k] {
            return false;
        }
        k += 1;
    }
    assert(s@.subrange(i as int, i + pat.len()) =~= pat@);
    true
}

/// The first index at which `pat` occurs in `s`, if any.
pub fn find_str(s: &Vec<char>, pat: &Vec<char>) -> (r: Option<usize>)
    ensures
        match find_sub(s@, pat@) {
            Some(j) => r == Some(j as usize),
            None => r is None,
        },
{
    if pat.len() > s.len() {
        return None;
    }
    let mut i: usize = 0;
    while i <= s.len() - pat.len()
        invariant
            pat.len() <= s.len(),
            i <= s.len() - pat.len() + 1,
            find_sub(s@, pat@) == find_sub_from(s@, pat@, i as int),
        decreases s.len() - pat.len() + 1 - i,
    {
        if occurs_at(s, pat, i) {
            return Some(i);
        }
        if i == s.len() - pat.len() {
            assert(find_sub_from(s@, pat@, i + 1) is None);
            return None;
        }
        i += 1;
    }
    None
}

/// The first index `j >= i` with `s[j]` equal to `a` or `b`; the length of `s` if none.
pub open spec fn first_of(s: Seq<char>, i: int, a: char, b: char) -> int
    decreases s.len() - i,
{
    if i < 0 || i >= s.len() {
        s.len() as int
    } else if s[i] == a || s[i] == b {
        i
    } else {
        first_of(s, i + 1, a, b)
    }
}

pub fn find_either(s: &Vec<char>, a: char, b: char) -> (r: usize)
    ensures
        r == first_of(s@, 0, a, b),
        r <= s.len(),
{
    let mut i: usize = 0;
    while i < s.len()
        invariant
            i <= s.len(),
            first_of(s@, 0, a, b) == first_of(s@, i as int, a, b),
        decreases s.len() - i,
    {
        if s[i] == a || s[i] == b {
            return i;
        }
        i += 1;
    }
    i
}

/// `s` without its characters equal to `c` (`str::replace(c, "")`).
pub open spec fn remove_char(s: Seq<char>, c: char) -> Seq<char>
    decreases s.len(),
{
    if s.len() == 0 {
        s
    } else if s.last() == c {
        remove_char(s.drop_last(), c)
    } else {
        remove_char(s.drop_last(), c).push(s.last())
    }
}

/// `s[lo..hi]` without its characters equal to `c`.
pub fn without_char(s: &Vec<char>, lo: usize, hi: usize, c: char) -> (r: Vec<char>)
    requires
        lo <= hi <= s.len(),
    ensures
        r@ == remove_char(s@.subrange(lo as int, hi as int), c),
{
    let mut r: Vec<char> = Vec::new();
    let mut i = lo;
    while i < hi
        invariant
            lo <= i <= hi <= s.len(),
            r@ == remove_char(s@.subrange(lo as int, i as int), c),
        decreases hi - i,
    {
        assert(s@.subrange(lo as int, i + 1).drop_last() == s@.subrange(lo as int, i as int));
        if s[i] != c {
            r.push(s[i]);
        }
        i += 1;
    }
    r
}


/// Whether `c` is alphabetic or numeric in Unicode (what `char::is_alphanumeric` tests).
pub uninterp spec fn char_alphanumeric(c: char) -> bool;

pub open spec fn is_ascii_alphanumeric(c: char) -> bool {
    ('a' <= c <= 'z') || ('A' <= c <= 'Z') || ('0' <= c <= '9')
}

/// `char::is_alphanumeric`: whether `c` has the Unicode property `Alphabetic` or `Numeric`.
/// Among ASCII characters those are exactly the letters and digits; for other characters the
/// tables of `std` decide, and nothing more is stated of them here.
#[verifier::external_body]
pub(crate) fn is_alphanumeric(c: char) -> (b: bool)
    ensures
        b == char_alphanumeric(c),
        (c as u32) < 128 ==> (b <==> is_ascii_alphanumeric(c)),
{
    c.is_alphanumeric()
}

} // verus!
