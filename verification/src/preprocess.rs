//! The preprocessor: comments, character literals, `#def` macros and constants.
//!
//! A macro is defined on a line of its own, `#def name param... @ body`; a definition with no
//! parameters is a constant. The source is cut into statements at `;`, `{` and `}`; a
//! statement whose first word names a macro is replaced by the statements of the macro's body
//! with its parameters replaced by the statement's further words, and every other statement has
//! its constants replaced by their values.
use vstd::prelude::*;
use crate::text::{
    char_alphanumeric, chars_eq, copy_range, decimal, decimal_chars, find_char, from_chars,
    index_of_from, is_alphanumeric, lemma_index_of_from, lemma_views_push, split_words, to_chars,
    trim, trim_end_by, trim_end_index, trim_range, views, words, words_from, Strip,
    is_whitespace, lemma_trim_first, lemma_trim_push_whitespace,
};

verus! {

/// The text of `s[i..]` without its comments, where `depth` block comments (`/* */`, which
/// nest) are open and `in_line` says whether a line comment (`//` to the end of the line,
/// outside block comments) is open. Each closing `*/` leaves a space.
pub open spec fn strip_from(s: Seq<char>, i: int, depth: nat, in_line: bool) -> Seq<char>
    decreases s.len() - i, (if in_line {
        1nat
    } else {
        0nat
    }),
{
    if i < 0 || i >= s.len() {
        seq![]
    } else if in_line {
        if s[i] == '\n' {
            strip_from(s, i, depth, false)
        } else {
            strip_from(s, i + 1, depth, true)
        }
    } else {
        let c = s[i];
        let has_next = i + 1 < s.len();
        if c == '/' && has_next && s[i + 1] == '*' {
            strip_from(s, i + 2, depth + 1, false)
        } else if c == '*' && has_next && s[i + 1] == '/' && depth > 0 {
            seq![' '] + strip_from(s, i + 2, (depth - 1) as nat, false)
        } else if c == '/' && has_next && s[i + 1] == '/' && depth == 0 {
            strip_from(s, i + 1, depth, true)
        } else if depth > 0 {
            strip_from(s, i + 1, depth, false)
        } else {
            seq![c] + strip_from(s, i + 1, depth, false)
        }
    }
}

/// The text `s` without its comments.
pub open spec fn spec_strip_comments(s: Seq<char>) -> Seq<char> {
    strip_from(s, 0, 0, false)
}

/// Whether `s` holds no comment opener: no `/` followed by `*` or `/`.
pub open spec fn no_comment_opener(s: Seq<char>) -> bool {
    forall|i: int| 0 <= i < s.len() - 1 && #[trigger] s[i] == '/' ==> s[i + 1] != '*' && s[i + 1] != '/'
}

proof fn lemma_no_comment_from(s: Seq<char>, i: int)
    requires
        0 <= i <= s.len(),
        no_comment_opener(s),
    ensures
        strip_from(s, i, 0, false) == s.skip(i),
    decreases s.len() - i,
{
    if i < s.len() {
        lemma_no_comment_from(s, i + 1);
        assert(seq![s[i]] + s.skip(i + 1) =~= s.skip(i));
    } else {
        assert(s.skip(i) =~= Seq::<char>::empty());
    }
}

/// Text in which no `/` is followed by `*` or `/` holds no comment, and is kept as it is.
pub proof fn lemma_no_comment_kept(s: Seq<char>)
    requires
        no_comment_opener(s),
    ensures
        spec_strip_comments(s) == s,
{
    lemma_no_comment_from(s, 0);
    assert(s.skip(0) =~= s);
}

/// The text `s` without its comments.
pub fn strip_comments(s: &Vec<char>) -> (r: Vec<char>)
    ensures
        r@ == spec_strip_comments(s@),
{
    let mut out: Vec<char> = Vec::new();
    let mut i: usize = 0;
    let mut depth: usize = 0;
    let mut in_line = false;
    while i < s.len()
        invariant
            i <= s.len(),
            depth <= i,
            spec_strip_comments(s@) == out@ + strip_from(s@, i as int, depth as nat, in_line),
        decreases s.len() - i, (if in_line {
            1nat
        } else {
            0nat
        }),
    {
        let c = s[i];
        let ghost before = out@;
        if in_line {
            if c == '\n' {
                in_line = false;
            } else {
                i += 1;
            }
        } else {
            let has_next = i + 1 < s.len();
            if c == '/' && has_next && s[i + 1] == '*' {
                depth += 1;
                i += 2;
            } else if c == '*' && has_next && s[i + 1] == '/' && depth > 0 {
                depth -= 1;
                out.push(' ');
                i += 2;
                assert(before + (seq![' '] + strip_from(s@, i as int, depth as nat, false)) == out@
                    + strip_from(s@, i as int, depth as nat, false));
            } else if c == '/' && has_next && s[i + 1] == '/' && depth == 0 {
                in_line = true;
                i += 1;
            } else if depth > 0 {
                i += 1;
            } else {
                out.push(c);
                i += 1;
                assert(before + (seq![c] + strip_from(s@, i as int, depth as nat, false)) == out@
                    + strip_from(s@, i as int, depth as nat, false));
            }
        }
    }
    out
}

/// The number that a character literal's escape `\c` stands for.
pub open spec fn escape_value(c: char) -> nat {
    if c == 'n' {
        10
    } else if c == 't' {
        9
    } else if c == '0' {
        0
    } else {
        (c as u32) as nat
    }
}

/// The text of `s[i..]` with each character literal (`'c'` or `'\c'`) replaced by the decimal
/// number of its character; the character after the literal's character is taken as its
/// closing quote whatever it is. `None` where a quote or a backslash ends the text.
pub open spec fn literals_from(s: Seq<char>, i: int) -> Option<Seq<char>>
    decreases s.len() + 2 - i,
{
    if i < 0 || i >= s.len() {
        Some(seq![])
    } else if s[i] != '\'' {
        match literals_from(s, i + 1) {
            Some(rest) => Some(seq![s[i]] + rest),
            None => None,
        }
    } else if i + 1 >= s.len() {
        None
    } else if s[i + 1] == '\\' {
        if i + 2 >= s.len() {
            None
        } else {
            match literals_from(s, i + 4) {
                Some(rest) => Some(decimal(escape_value(s[i + 2])) + rest),
                None => None,
            }
        }
    } else {
        match literals_from(s, i + 3) {
            Some(rest) => Some(decimal((s[i + 1] as u32) as nat) + rest),
            None => None,
        }
    }
}

/// The text `s` with its character literals replaced by their numbers.
pub open spec fn spec_char_literals(s: Seq<char>) -> Option<Seq<char>> {
    literals_from(s, 0)
}

proof fn lemma_no_literal_from(s: Seq<char>, i: int)
    requires
        0 <= i <= s.len(),
        !s.contains('\''),
    ensures
        literals_from(s, i) == Some(s.skip(i)),
    decreases s.len() - i,
{
    if i < s.len() {
        lemma_no_literal_from(s, i + 1);
    }
}

/// Text without a quote holds no character literal, and is kept as it is.
pub proof fn lemma_no_literal_kept(s: Seq<char>)
    requires
        !s.contains('\''),
    ensures
        spec_char_literals(s) == Some(s),
{
    lemma_no_literal_from(s, 0);
}

/// The character that a literal's escape `\e` denotes: `\n` a line feed, `\t` a tab, `\0`
/// NUL, and any other `\e` the character `e` itself.
pub open spec fn escaped_char(e: char) -> char {
    if e == 'n' {
        '\n'
    } else if e == 't' {
        '\t'
    } else if e == '0' {
        '\0'
    } else {
        e
    }
}

proof fn lemma_literals_plain_prefix(p: Seq<char>, rest: Seq<char>, i: int)
    requires
        0 <= i <= p.len(),
        !p.contains('\''),
    ensures
        literals_from(p + rest, i) == match literals_from(rest, 0) {
            Some(r) => Some(p.skip(i) + r),
            None => None,
        },
    decreases p.len() - i,
{
    let t = p + rest;
    if i < p.len() {
        assert(t[i] == p[i]);
        lemma_literals_plain_prefix(p, rest, i + 1);
        match literals_from(rest, 0) {
            Some(r) => assert(seq![p[i]] + (p.skip(i + 1) + r) =~= p.skip(i) + r),
            None => {},
        }
    } else {
        lemma_literals_shift(p, rest, 0);
        assert(p.skip(i) =~= Seq::<char>::empty());
        match literals_from(rest, 0) {
            Some(r) => assert(Seq::<char>::empty() + r =~= r),
            None => {},
        }
    }
}

proof fn lemma_literals_shift(p: Seq<char>, rest: Seq<char>, j: int)
    requires
        0 <= j <= rest.len(),
    ensures
        literals_from(p + rest, p.len() + j) == literals_from(rest, j),
    decreases rest.len() + 2 - j,
{
    let t = p + rest;
    if j < rest.len() {
        assert(t[p.len() + j] == rest[j]);
        if rest[j] != '\'' {
            lemma_literals_shift(p, rest, j + 1);
        } else if j + 1 < rest.len() {
            assert(t[p.len() + j + 1] == rest[j + 1]);
            if rest[j + 1] == '\\' {
                if j + 2 < rest.len() {
                    assert(t[p.len() + j + 2] == rest[j + 2]);
                    if j + 4 <= rest.len() {
                        lemma_literals_shift(p, rest, j + 4);
                    } else {
                        assert(literals_from(t, p.len() + j + 4) == Some(Seq::<char>::empty()));
                        assert(literals_from(rest, j + 4) == Some(Seq::<char>::empty()));
                    }
                }
            } else {
                if j + 3 <= rest.len() {
                    lemma_literals_shift(p, rest, j + 3);
                } else {
                    assert(literals_from(t, p.len() + j + 3) == Some(Seq::<char>::empty()));
                    assert(literals_from(rest, j + 3) == Some(Seq::<char>::empty()));
                }
            }
        }
    }
}

/// A character literal is replaced by the decimal numeral of the code of the character it
/// denotes: `'c'` by that of `c`, and `'\e'` by that of the character the escape denotes
/// (see [`escaped_char`]); the text before it, which holds no quote, is kept, and the text
/// after it is read on.
pub proof fn lemma_char_literal(p: Seq<char>, c: char, e: char, rest: Seq<char>)
    requires
        !p.contains('\''),
        c != '\\',
    ensures
        spec_char_literals(p + seq!['\'', c, '\''] + rest) == match spec_char_literals(rest) {
            Some(r) => Some(p + decimal(c as nat) + r),
            None => None,
        },
        spec_char_literals(p + seq!['\'', '\\', e, '\''] + rest) == match spec_char_literals(rest) {
            Some(r) => Some(p + decimal(escaped_char(e) as nat) + r),
            None => None,
        },
{
    let lit = seq!['\'', c, '\''];
    let esc = seq!['\'', '\\', e, '\''];
    assert(p + lit + rest =~= p + (lit + rest));
    assert(p + esc + rest =~= p + (esc + rest));
    lemma_literals_plain_prefix(p, lit + rest, 0);
    lemma_literals_plain_prefix(p, esc + rest, 0);
    lemma_literals_shift(lit, rest, 0);
    lemma_literals_shift(esc, rest, 0);
    assert(p.skip(0) =~= p);
    assert((lit + rest)[0] == '\'' && (lit + rest)[1] == c);
    assert((esc + rest)[0] == '\'' && (esc + rest)[1] == '\\' && (esc + rest)[2] == e);
    assert(escape_value(e) == escaped_char(e) as nat);
    match spec_char_literals(rest) {
        Some(r) => {
            assert(p + (decimal(c as nat) + r) =~= p + decimal(c as nat) + r);
            assert(p + (decimal(escaped_char(e) as nat) + r) =~= p + decimal(escaped_char(e) as nat) + r);
        },
        None => {},
    }
}

/// The text `s` with its character literals replaced by their numbers.
pub fn char_literals(s: &Vec<char>) -> (r: Vec<char>)
    requires
        spec_char_literals(s@) is Some,
    ensures
        Some(r@) == spec_char_literals(s@),
{
    let mut out: Vec<char> = Vec::new();
    let mut i: usize = 0;
    while i < s.len()
        invariant
            literals_from(s@, i as int) is Some,
            spec_char_literals(s@) == Some(out@ + literals_from(s@, i as int)->0),
        decreases s.len() + 2 - i,
    {
        let c = s[i];
        let ghost before = out@;
        if c != '\'' {
            out.push(c);
            assert(before + (seq![c] + literals_from(s@, i + 1)->0) == out@ + literals_from(
                s@,
                i + 1,
            )->0);
            i += 1;
        } else {
            let v: u32;
            let step: usize;
            if s[i + 1] == '\\' {
                let e = s[i + 2];
                v = if e == 'n' {
                    10
                } else if e == 't' {
                    9
                } else if e == '0' {
                    0
                } else {
                    e as u32
                };
                step = 4;
            } else {
                v = s[i + 1] as u32;
                step = 3;
            }
            let mut digits = decimal_chars(v);
            out.append(&mut digits);
            if s.len() - i <= step {
                assert(literals_from(s@, i + step) == Some(Seq::<char>::empty()));
                return out;
            }
            i = i + step;
        }
    }
    out
}


/// A table of replacements, in the order of insertion: a word's replacement is the value of
/// its last entry, and an entry without a value means that the word is not replaced.
pub type Table = Seq<(Seq<char>, Option<Seq<char>>)>;

/// The replacement of `word` in `table`, if any (its last entry decides).
pub open spec fn lookup(table: Table, word: Seq<char>) -> Option<Seq<char>>
    decreases table.len(),
{
    if table.len() == 0 {
        None
    } else if table.last().0 == word {
        table.last().1
    } else {
        lookup(table.drop_last(), word)
    }
}

/// `word`, or its replacement.
pub open spec fn replace_word(table: Table, word: Seq<char>) -> Seq<char> {
    match lookup(table, word) {
        Some(v) => v,
        None => word,
    }
}

/// The characters that words are made of: letters and digits (in Unicode) and `_`.
pub open spec fn is_word_char(c: char) -> bool {
    char_alphanumeric(c) || c == '_'
}

/// `s[i..]` with each word replaced, where `word` is the part of a word already read.
pub open spec fn subst_from(table: Table, s: Seq<char>, i: int, word: Seq<char>) -> Seq<char>
    decreases s.len() - i,
{
    if i < 0 || i >= s.len() {
        replace_word(table, word)
    } else if is_word_char(s[i]) {
        subst_from(table, s, i + 1, word.push(s[i]))
    } else {
        replace_word(table, word) + seq![s[i]] + subst_from(table, s, i + 1, seq![])
    }
}

/// `s` with each word that the table replaces replaced.
pub open spec fn spec_substitute(table: Table, s: Seq<char>) -> Seq<char> {
    subst_from(table, s, 0, seq![])
}

proof fn lemma_lookup_valueless(table: Table, word: Seq<char>)
    requires
        forall|k: int| 0 <= k < table.len() ==> (#[trigger] table[k]).1 is None,
    ensures
        lookup(table, word) is None,
    decreases table.len(),
{
    if table.len() > 0 {
        assert(forall|k: int|
            0 <= k < table.drop_last().len() ==> (#[trigger] table.drop_last()[k]).1 is None);
        lemma_lookup_valueless(table.drop_last(), word);
    }
}

proof fn lemma_subst_valueless_from(table: Table, s: Seq<char>, i: int, word: Seq<char>)
    requires
        0 <= i <= s.len(),
        forall|k: int| 0 <= k < table.len() ==> (#[trigger] table[k]).1 is None,
    ensures
        subst_from(table, s, i, word) == word + s.skip(i),
    decreases s.len() - i,
{
    lemma_lookup_valueless(table, word);
    if i < s.len() {
        if is_word_char(s[i]) {
            lemma_subst_valueless_from(table, s, i + 1, word.push(s[i]));
        } else {
            lemma_subst_valueless_from(table, s, i + 1, seq![]);
        }
    }
}

/// A table that replaces no word (each entry without a value, or no entry at all) leaves
/// the text as it is.
pub proof fn lemma_substitute_nothing(table: Table, s: Seq<char>)
    requires
        forall|k: int| 0 <= k < table.len() ==> (#[trigger] table[k]).1 is None,
    ensures
        spec_substitute(table, s) == s,
{
    lemma_subst_valueless_from(table, s, 0, seq![]);
}

/// Whether `s[a..b]` is a word of `s` as substitution reads it: a maximal run of word
/// characters, possibly empty (between two other characters, or at an end).
pub open spec fn is_word_at(s: Seq<char>, a: int, b: int) -> bool {
    &&& 0 <= a <= b <= s.len()
    &&& forall|k: int| a <= k < b ==> is_word_char(#[trigger] s[k])
    &&& (a == 0 || !is_word_char(s[a - 1]))
    &&& (b == s.len() || !is_word_char(s[b]))
}

proof fn lemma_subst_unmatched_from(table: Table, s: Seq<char>, a: int, i: int)
    requires
        0 <= a <= i <= s.len(),
        a == 0 || !is_word_char(s[a - 1]),
        forall|k: int| a <= k < i ==> is_word_char(#[trigger] s[k]),
        forall|x: int, y: int| is_word_at(s, x, y) ==> #[trigger] lookup(table, s.subrange(x, y)) is None,
    ensures
        subst_from(table, s, i, s.subrange(a, i)) == s.skip(a),
    decreases s.len() - i,
{
    if i >= s.len() {
        assert(is_word_at(s, a, i));
        assert(s.subrange(a, i) =~= s.skip(a));
    } else if is_word_char(s[i]) {
        assert(s.subrange(a, i).push(s[i]) =~= s.subrange(a, i + 1));
        lemma_subst_unmatched_from(table, s, a, i + 1);
    } else {
        assert(is_word_at(s, a, i));
        assert(s.subrange(i + 1, i + 1) =~= Seq::<char>::empty());
        lemma_subst_unmatched_from(table, s, i + 1, i + 1);
        assert(s.subrange(a, i) + seq![s[i]] + s.skip(i + 1) =~= s.skip(a));
    }
}

/// A table none of whose keys is a word of the text (nor the empty word) leaves the text as
/// it is; in particular an empty table does.
pub proof fn lemma_substitute_unmatched(table: Table, s: Seq<char>)
    requires
        forall|x: int, y: int| is_word_at(s, x, y) ==> #[trigger] lookup(table, s.subrange(x, y)) is None,
    ensures
        spec_substitute(table, s) == s,
{
    assert(s.subrange(0, 0) =~= Seq::<char>::empty());
    lemma_subst_unmatched_from(table, s, 0, 0);
    assert(s.skip(0) =~= s);
}

/// A table's replacement of a word is given by its last entry for that word: an entry added
/// last for `k` decides `k`, and leaves every other word as it was.
pub proof fn lemma_lookup_latest(table: Table, k: Seq<char>, value: Option<Seq<char>>, w: Seq<char>)
    ensures
        lookup(Seq::<(Seq<char>, Option<Seq<char>>)>::empty(), w) is None,
        lookup(table.push((k, value)), k) == value,
        w != k ==> lookup(table.push((k, value)), w) == lookup(table, w),
{
    assert(table.push((k, value)).drop_last() =~= table);
}

proof fn lemma_subst_shift(table: Table, p: Seq<char>, r: Seq<char>, j: int, word: Seq<char>)
    requires
        0 <= j <= r.len(),
    ensures
        subst_from(table, p + r, p.len() + j, word) == subst_from(table, r, j, word),
    decreases r.len() - j,
{
    if j < r.len() {
        assert((p + r)[p.len() + j] == r[j]);
        if is_word_char(r[j]) {
            lemma_subst_shift(table, p, r, j + 1, word.push(r[j]));
        } else {
            lemma_subst_shift(table, p, r, j + 1, seq![]);
        }
    }
}

proof fn lemma_subst_word(table: Table, s: Seq<char>, w: Seq<char>, i: int)
    requires
        0 <= i <= w.len() <= s.len(),
        s.take(w.len() as int) == w,
        forall|k: int| 0 <= k < w.len() ==> is_word_char(#[trigger] w[k]),
    ensures
        subst_from(table, s, i, w.take(i)) == subst_from(table, s, w.len() as int, w),
    decreases w.len() - i,
{
    if i < w.len() {
        assert(s[i] == w[i]);
        assert(w.take(i).push(w[i]) =~= w.take(i + 1));
        lemma_subst_word(table, s, w, i + 1);
    } else {
        assert(w.take(i) =~= w);
    }
}

/// Substitution replaces each word by its replacement and keeps every other character: a
/// word alone becomes its replacement, and a word followed by another character, then more
/// text, becomes its replacement, that character, and the substitution of the rest.
pub proof fn lemma_substitute_words(table: Table, w: Seq<char>, x: char, rest: Seq<char>)
    requires
        forall|k: int| 0 <= k < w.len() ==> is_word_char(#[trigger] w[k]),
    ensures
        spec_substitute(table, w) == replace_word(table, w),
        !is_word_char(x) ==> spec_substitute(table, w + seq![x] + rest) == replace_word(table, w)
            + seq![x] + spec_substitute(table, rest),
{
    assert(w.take(w.len() as int) =~= w);
    assert(w.take(0) =~= Seq::<char>::empty());
    lemma_subst_word(table, w, w, 0);
    let s = w + seq![x] + rest;
    assert(s.take(w.len() as int) =~= w);
    lemma_subst_word(table, s, w, 0);
    if !is_word_char(x) {
        assert(s[w.len() as int] == x);
        let p = w + seq![x];
        assert(s =~= p + rest);
        lemma_subst_shift(table, p, rest, 0, seq![]);
    }
}

/// An entry of a table of replacements.
pub type Entry = (Vec<char>, Option<Vec<char>>);

/// The table that a list of entries holds.
pub open spec fn table_of(entries: Seq<Entry>) -> Table {
    entries.map_values(
        |e: Entry|
            (
                e.0@,
                match e.1 {
                    Some(v) => Some(v@),
                    None => None,
                },
            ),
    )
}

/// The replacement of `word` in `table`, or `word` itself.
fn replacement(table: &Vec<Entry>, word: &Vec<char>) -> (r: Vec<char>)
    ensures
        r@ == replace_word(table_of(table@), word@),
{
    let ghost t = table_of(table@);
    let mut j = table.len();
    assert(t.take(j as int) == t);
    while j > 0
        invariant
            j <= table.len(),
            t == table_of(table@),
            lookup(t, word@) == lookup(t.take(j as int), word@),
        decreases j,
    {
        assert(t.take(j as int).drop_last() == t.take(j - 1));
        if crate::text::chars_eq(&table[j - 1].0, word) {
            return match &table[j - 1].1 {
                Some(v) => v.clone(),
                None => word.clone(),
            };
        }
        j -= 1;
    }
    word.clone()
}

/// `s` with each word that `table` replaces replaced (`str::replace` of whole words).
pub fn substitute(table: &Vec<Entry>, s: &Vec<char>) -> (r: Vec<char>)
    ensures
        r@ == spec_substitute(table_of(table@), s@),
{
    let ghost t = table_of(table@);
    let mut out: Vec<char> = Vec::new();
    let mut word: Vec<char> = Vec::new();
    let mut i: usize = 0;
    while i < s.len()
        invariant
            i <= s.len(),
            t == table_of(table@),
            spec_substitute(t, s@) == out@ + subst_from(t, s@, i as int, word@),
        decreases s.len() - i,
    {
        let c = s[i];
        if is_alphanumeric(c) || c == '_' {
            word.push(c);
        } else {
            let ghost before = out@;
            let mut rep = replacement(table, &word);
            let ghost r = rep@;
            out.append(&mut rep);
            out.push(c);
            word = Vec::new();
            assert(before + (r + seq![c] + subst_from(t, s@, i + 1, seq![])) == out@ + subst_from(
                t,
                s@,
                i + 1,
                word@,
            ));
        }
        i += 1;
    }
    let mut rep = replacement(table, &word);
    out.append(&mut rep);
    out
}


/// The characters that end a statement.
pub open spec fn is_delimiter(c: char) -> bool {
    c == ';' || c == '{' || c == '}'
}

/// A piece of the source as a statement: trimmed, without its closing `;`s.
pub open spec fn clean_statement(p: Seq<char>) -> Seq<char> {
    trim(trim_end_by(trim(p), Strip::Char(';')))
}

/// The statement of a piece, unless it is empty.
pub open spec fn keep(p: Seq<char>) -> Seq<Seq<char>> {
    if clean_statement(p).len() > 0 {
        seq![clean_statement(p)]
    } else {
        seq![]
    }
}

/// The statements of `s[i..]`, where `cur` is the part of a piece already read: the source is
/// cut after each `;`, `{` and `}`.
pub open spec fn statements_from(s: Seq<char>, i: int, cur: Seq<char>) -> Seq<Seq<char>>
    decreases s.len() - i,
{
    if i < 0 || i >= s.len() {
        keep(cur)
    } else if is_delimiter(s[i]) {
        keep(cur.push(s[i])) + statements_from(s, i + 1, seq![])
    } else {
        statements_from(s, i + 1, cur.push(s[i]))
    }
}

/// The non-empty statements of `s`.
pub open spec fn spec_split_statements(s: Seq<char>) -> Seq<Seq<char>> {
    statements_from(s, 0, seq![])
}

/// `s[a..b]` as a statement.
fn clean_range(s: &Vec<char>, a: usize, b: usize) -> (r: Vec<char>)
    requires
        a <= b <= s.len(),
    ensures
        r@ == clean_statement(s@.subrange(a as int, b as int)),
{
    let (x, y) = trim_range(s, a, b, Strip::Whitespace);
    let y = trim_end_index(s, x, y, Strip::Char(';'));
    let (x, y) = trim_range(s, x, y, Strip::Whitespace);
    copy_range(s, x, y)
}

/// The non-empty statements of `s`, in order.
pub fn split_statements(s: &Vec<char>) -> (r: Vec<Vec<char>>)
    ensures
        views(r@) == spec_split_statements(s@),
{
    let mut out: Vec<Vec<char>> = Vec::new();
    let mut start: usize = 0;
    let mut i: usize = 0;
    assert(s@.subrange(0, 0) == Seq::<char>::empty());
    while i < s.len()
        invariant
            start <= i <= s.len(),
            spec_split_statements(s@) == views(out@) + statements_from(
                s@,
                i as int,
                s@.subrange(start as int, i as int),
            ),
        decreases s.len() - i,
    {
        assert(s@.subrange(start as int, i as int).push(s@[i as int]) == s@.subrange(
            start as int,
            i + 1,
        ));
        let c = s[i];
        if c == ';' || c == '{' || c == '}' {
            let ghost before = views(out@);
            let ghost old_start = start;
            let piece = clean_range(s, start, i + 1);
            if piece.len() > 0 {
                proof {
                    lemma_views_push(out@, piece);
                }
                out.push(piece);
            }
            start = i + 1;
            assert(s@.subrange(start as int, start as int) == Seq::<char>::empty());
            assert(before + (keep(s@.subrange(old_start as int, i + 1)) + statements_from(
                s@,
                i + 1,
                seq![],
            )) == views(out@) + statements_from(
                s@,
                i + 1,
                seq![],
            ));
        }
        i += 1;
    }
    let piece = clean_range(s, start, s.len());
    if piece.len() > 0 {
        proof {
            lemma_views_push(out@, piece);
        }
        out.push(piece);
    }
    out
}


/// A line without the carriage return of its `\r\n` ending.
pub open spec fn strip_cr(line: Seq<char>) -> Seq<char> {
    if line.len() > 0 && line.last() == '\r' {
        line.drop_last()
    } else {
        line
    }
}

/// The lines of `s[i..]`, where `cur` is the part of a line already read (`str::lines`: the
/// text is cut after each `\n`, a `\r` before it is dropped, and no empty line follows the
/// last `\n`).
pub open spec fn lines_from(s: Seq<char>, i: int, cur: Seq<char>) -> Seq<Seq<char>>
    decreases s.len() - i,
{
    if i < 0 || i >= s.len() {
        if cur.len() > 0 {
            seq![cur]
        } else {
            seq![]
        }
    } else if s[i] == '\n' {
        seq![strip_cr(cur)] + lines_from(s, i + 1, seq![])
    } else {
        lines_from(s, i + 1, cur.push(s[i]))
    }
}

/// The lines of `s`.
pub open spec fn spec_lines(s: Seq<char>) -> Seq<Seq<char>> {
    lines_from(s, 0, seq![])
}

/// The lines of `s`, in order.
pub fn lines(s: &Vec<char>) -> (r: Vec<Vec<char>>)
    ensures
        views(r@) == spec_lines(s@),
{
    let mut out: Vec<Vec<char>> = Vec::new();
    let mut start: usize = 0;
    let mut i: usize = 0;
    assert(s@.subrange(0, 0) == Seq::<char>::empty());
    while i < s.len()
        invariant
            start <= i <= s.len(),
            spec_lines(s@) == views(out@) + lines_from(
                s@,
                i as int,
                s@.subrange(start as int, i as int),
            ),
        decreases s.len() - i,
    {
        assert(s@.subrange(start as int, i as int).push(s@[i as int]) == s@.subrange(
            start as int,
            i + 1,
        ));
        if s[i] == '\n' {
            let ghost before = views(out@);
            let ghost old_start = start;
            let end = if i > start && s[i - 1] == '\r' {
                i - 1
            } else {
                i
            };
            let line = copy_range(s, start, end);
            assert(line@ == strip_cr(s@.subrange(old_start as int, i as int)));
            proof {
                lemma_views_push(out@, line);
            }
            out.push(line);
            start = i + 1;
            assert(s@.subrange(start as int, start as int) == Seq::<char>::empty());
            assert(before + (seq![strip_cr(s@.subrange(old_start as int, i as int))]
                + lines_from(s@, i + 1, seq![])) == views(out@) + lines_from(s@, i + 1, seq![]));
        }
        i += 1;
    }
    if start < s.len() {
        let line = copy_range(s, start, s.len());
        proof {
            lemma_views_push(out@, line);
        }
        out.push(line);
    }
    out
}

/// A macro definition: its name, its parameters and its body.
pub type MacroDef = (Seq<char>, Seq<Seq<char>>, Seq<char>);

/// A macro definition.
pub struct Macro {
    pub name: Vec<char>,
    pub params: Vec<Vec<char>>,
    pub body: Vec<char>,
}

impl View for Macro {
    type V = MacroDef;

    open spec fn view(&self) -> MacroDef {
        (self.name@, views(self.params@), self.body@)
    }
}

/// The definitions of a list of macros.
pub open spec fn defs_of(m: Seq<Macro>) -> Seq<MacroDef> {
    m.map_values(|d: Macro| d@)
}

/// The definition after `#def`: `name param... @ body`. `None` where there is no `@` or no
/// name.
pub open spec fn parse_definition(def: Seq<char>) -> Option<MacroDef> {
    match index_of_from(def, 0, '@') {
        None => None,
        Some(k) => {
            let head = words(def.take(k));
            if head.len() == 0 {
                None
            } else {
                Some((head[0], head.drop_first(), trim(def.skip(k + 1))))
            }
        },
    }
}

/// The marker of a definition line.
pub open spec fn def_marker() -> Seq<char> {
    seq!['#', 'd', 'e', 'f']
}

/// Reading the lines `ls[k..]` after the definitions `defs` and the code `code`: a line that
/// starts with `#def` (after whitespace) adds a definition, and every other line is added to
/// the code with a line feed. `None` where a definition is malformed.
pub open spec fn collect_from(ls: Seq<Seq<char>>, k: int, defs: Seq<MacroDef>, code: Seq<char>) -> Option<
    (Seq<MacroDef>, Seq<char>),
>
    decreases ls.len() - k,
{
    if k < 0 || k >= ls.len() {
        Some((defs, code))
    } else {
        let t = trim(ls[k]);
        if t.len() >= 4 && t.take(4) == def_marker() {
            match parse_definition(t.skip(4)) {
                None => None,
                Some(d) => collect_from(ls, k + 1, defs.push(d), code),
            }
        } else {
            collect_from(ls, k + 1, defs, code + ls[k] + seq!['\n'])
        }
    }
}

/// A definition after `#def`, held in `s[lo..hi]`.
fn read_definition(s: &Vec<char>, lo: usize, hi: usize) -> (r: Option<Macro>)
    requires
        lo <= hi <= s.len(),
    ensures
        match parse_definition(s@.subrange(lo as int, hi as int)) {
            None => r is None,
            Some(d) => r matches Some(m) && m@ == d,
        },
{
    let ghost def = s@.subrange(lo as int, hi as int);
    proof {
        lemma_index_of_from(def, 0, '@');
        lemma_index_of_from(s@, lo as int, '@');
    }
    match find_char(s, lo, hi, '@') {
        None => {
            assert(index_of_from(def, 0, '@') is None) by {
                if index_of_from(def, 0, '@') is Some {
                    let j = index_of_from(def, 0, '@')->0;
                }
            }
            None
        },
        Some(at) => {
            assert(index_of_from(def, 0, '@') == Some(at - lo)) by {
                assert(def[at - lo] == s@[at as int]);
            }
            assert(def.take(at - lo) == s@.subrange(lo as int, at as int));
            assert(def.skip(at - lo + 1) == s@.subrange(at + 1, hi as int));
            let head = split_words(s, lo, at);
            if head.len() == 0 {
                return None;
            }
            let name = head[0].clone();
            let mut params: Vec<Vec<char>> = Vec::new();
            let mut j: usize = 1;
            while j < head.len()
                invariant
                    1 <= j <= head.len(),
                    views(params@) == views(head@).subrange(1, j as int),
                decreases head.len() - j,
            {
                let p = head[j].clone();
                proof {
                    lemma_views_push(params@, p);
                }
                params.push(p);
                assert(views(head@).subrange(1, j + 1) == views(head@).subrange(1, j as int).push(
                    head@[j as int]@,
                ));
                j += 1;
            }
            let (x, y) = trim_range(s, at + 1, hi, Strip::Whitespace);
            let body = copy_range(s, x, y);
            Some(Macro { name, params, body })
        },
    }
}


/// The definitions and the code of the lines `ls`.
pub open spec fn spec_collect(ls: Seq<Seq<char>>) -> Option<(Seq<MacroDef>, Seq<char>)> {
    collect_from(ls, 0, seq![], seq![])
}

/// The definitions and the code of the lines `ls`.
fn collect(ls: &Vec<Vec<char>>) -> (r: Option<(Vec<Macro>, Vec<char>)>)
    ensures
        match spec_collect(views(ls@)) {
            None => r is None,
            Some((d, c)) => r matches Some((m, code)) && defs_of(m@) == d && code@ == c,
        },
{
    let ghost ls_v = views(ls@);
    let mut defs: Vec<Macro> = Vec::new();
    let mut code: Vec<char> = Vec::new();
    let mut k: usize = 0;
    assert(defs_of(defs@) == Seq::<MacroDef>::empty());
    while k < ls.len()
        invariant
            k <= ls.len(),
            ls_v == views(ls@),
            spec_collect(ls_v) == collect_from(ls_v, k as int, defs_of(defs@), code@),
        decreases ls.len() - k,
    {
        let line = &ls[k];
        assert(line@.subrange(0, line@.len() as int) == line@);
        let (a, b) = trim_range(line, 0, line.len(), Strip::Whitespace);
        let ghost t = line@.subrange(a as int, b as int);
        let ghost old_code = code@;
        if b - a >= 4 && line[a] == '#' && line[a + 1] == 'd' && line[a + 2] == 'e' && line[a + 3]
            == 'f' {
            assert(t.take(4) == def_marker());
            assert(t.skip(4) == line@.subrange(a + 4, b as int));
            match read_definition(line, a + 4, b) {
                None => return None,
                Some(m) => {
                    assert(defs_of(defs@.push(m)) == defs_of(defs@).push(m@));
                    defs.push(m);
                },
            }
        } else {
            let mut l = line.clone();
            code.append(&mut l);
            code.push('\n');
            assert(code@ == old_code + ls_v[k as int] + seq!['\n']);
        }
        k += 1;
    }
    Some((defs, code))
}

/// The definition of `name` (the last one, where there are several).
pub open spec fn macro_lookup(defs: Seq<MacroDef>, name: Seq<char>) -> Option<MacroDef>
    decreases defs.len(),
{
    if defs.len() == 0 {
        None
    } else if defs.last().0 == name {
        Some(defs.last())
    } else {
        macro_lookup(defs.drop_last(), name)
    }
}

/// The index of the definition of `name` (the last one, where there are several).
fn find_macro(defs: &Vec<Macro>, name: &Vec<char>) -> (r: Option<usize>)
    ensures
        match macro_lookup(defs_of(defs@), name@) {
            None => r is None,
            Some(d) => r matches Some(k) && k < defs.len() && defs@[k as int]@ == d,
        },
{
    let ghost d = defs_of(defs@);
    let mut j = defs.len();
    assert(d.take(j as int) == d);
    while j > 0
        invariant
            j <= defs.len(),
            d == defs_of(defs@),
            macro_lookup(d, name@) == macro_lookup(d.take(j as int), name@),
        decreases j,
    {
        assert(d.take(j as int).drop_last() == d.take(j - 1));
        if chars_eq(&defs[j - 1].name, name) {
            return Some(j - 1);
        }
        j -= 1;
    }
    None
}

/// The constants of the definitions: each name's last definition replaces it when it has no
/// parameters.
pub open spec fn constants(defs: Seq<MacroDef>) -> Table {
    defs.map_values(
        |d: MacroDef|
            (
                d.0,
                if d.1.len() == 0 {
                    Some(d.2)
                } else {
                    None
                },
            ),
    )
}

/// The table of the constants of `defs`.
fn constant_table(defs: &Vec<Macro>) -> (r: Vec<Entry>)
    ensures
        table_of(r@) == constants(defs_of(defs@)),
{
    let mut r: Vec<Entry> = Vec::new();
    let mut k: usize = 0;
    while k < defs.len()
        invariant
            k <= defs.len(),
            table_of(r@) == constants(defs_of(defs@)).take(k as int),
        decreases defs.len() - k,
    {
        let d = &defs[k];
        let value = if d.params.len() == 0 {
            Some(d.body.clone())
        } else {
            None
        };
        let e: Entry = (d.name.clone(), value);
        assert(constants(defs_of(defs@)).take(k + 1) == constants(defs_of(defs@)).take(
            k as int,
        ).push(constants(defs_of(defs@))[k as int]));
        r.push(e);
        k += 1;
    }
    r
}

/// The arguments of a macro use: each parameter replaced by the word in its place; where the
/// words and the parameters differ in number, the extra ones are ignored.
pub open spec fn arguments(params: Seq<Seq<char>>, args: Seq<Seq<char>>) -> Table {
    let n = if params.len() <= args.len() {
        params.len()
    } else {
        args.len()
    };
    Seq::new(n, |i: int| (params[i], Some(args[i])))
}

/// The table of the arguments of a macro use, whose words are `ws[1..]`.
fn argument_table(params: &Vec<Vec<char>>, ws: &Vec<Vec<char>>) -> (r: Vec<Entry>)
    requires
        ws.len() >= 1,
    ensures
        table_of(r@) == arguments(views(params@), views(ws@).drop_first()),
{
    let ghost want = arguments(views(params@), views(ws@).drop_first());
    let mut r: Vec<Entry> = Vec::new();
    let mut k: usize = 0;
    while k < params.len() && k + 1 < ws.len()
        invariant
            k <= params.len(),
            k + 1 <= ws.len(),
            want == arguments(views(params@), views(ws@).drop_first()),
            table_of(r@) == want.take(k as int),
        decreases params.len() - k,
    {
        let e: Entry = (params[k].clone(), Some(ws[k + 1].clone()));
        assert(want.take(k + 1) == want.take(k as int).push(want[k as int]));
        r.push(e);
        k += 1;
    }
    r
}

/// The statements that the statement `stmt` expands to, nesting at most `fuel` macro uses
/// deep: a macro use expands to the statements of its body with the arguments in place, each
/// expanded in turn; any other statement becomes itself with the constants replaced. `None`
/// where the statement has no word or the nesting is deeper.
pub open spec fn expand_spec(defs: Seq<MacroDef>, stmt: Seq<char>, fuel: nat) -> Option<
    Seq<Seq<char>>,
>
    decreases fuel, 0int,
{
    if fuel == 0 {
        None
    } else {
        let ws = words(stmt);
        if ws.len() == 0 {
            None
        } else {
            match macro_lookup(defs, ws[0]) {
                Some(d) => expand_seq(
                    defs,
                    spec_split_statements(spec_substitute(arguments(d.1, ws.drop_first()), d.2)),
                    0,
                    (fuel - 1) as nat,
                ),
                None => Some(seq![spec_substitute(constants(defs), stmt)]),
            }
        }
    }
}

/// The expansions of the statements `stmts[k..]`, in order.
pub open spec fn expand_seq(defs: Seq<MacroDef>, stmts: Seq<Seq<char>>, k: int, fuel: nat) -> Option<
    Seq<Seq<char>>,
>
    decreases fuel, stmts.len() + 1 - k,
{
    if k < 0 || k >= stmts.len() {
        Some(seq![])
    } else {
        match expand_spec(defs, stmts[k], fuel) {
            None => None,
            Some(a) => match expand_seq(defs, stmts, k + 1, fuel) {
                None => None,
                Some(b) => Some(a + b),
            },
        }
    }
}


proof fn lemma_expand_fuel(defs: Seq<MacroDef>, stmt: Seq<char>, f: nat, g: nat)
    requires
        expand_spec(defs, stmt, f) is Some,
        f <= g,
    ensures
        expand_spec(defs, stmt, g) == expand_spec(defs, stmt, f),
    decreases f, 0int,
{
    let ws = words(stmt);
    if ws.len() > 0 {
        match macro_lookup(defs, ws[0]) {
            Some(d) => lemma_expand_seq_fuel(
                defs,
                spec_split_statements(spec_substitute(arguments(d.1, ws.drop_first()), d.2)),
                0,
                (f - 1) as nat,
                (g - 1) as nat,
            ),
            None => {},
        }
    }
}

proof fn lemma_expand_seq_fuel(defs: Seq<MacroDef>, stmts: Seq<Seq<char>>, k: int, f: nat, g: nat)
    requires
        expand_seq(defs, stmts, k, f) is Some,
        f <= g,
    ensures
        expand_seq(defs, stmts, k, g) == expand_seq(defs, stmts, k, f),
    decreases f, stmts.len() + 1 - k,
{
    if 0 <= k < stmts.len() {
        lemma_expand_fuel(defs, stmts[k], f, g);
        lemma_expand_seq_fuel(defs, stmts, k + 1, f, g);
    }
}

/// Appends the statements that `stmt` expands to.
fn expand(
    defs: &Vec<Macro>,
    consts: &Vec<Entry>,
    stmt: &Vec<char>,
    buffer: &mut Vec<Vec<char>>,
    Ghost(fuel): Ghost<nat>,
)
    requires
        table_of(consts@) == constants(defs_of(defs@)),
        expand_spec(defs_of(defs@), stmt@, fuel) is Some,
    ensures
        views(final(buffer)@) == views(old(buffer)@) + expand_spec(defs_of(defs@), stmt@, fuel)->0,
    decreases fuel, 0int,
{
    assert(stmt@.subrange(0, stmt@.len() as int) == stmt@);
    let ws = split_words(stmt, 0, stmt.len());
    match find_macro(defs, &ws[0]) {
        Some(k) => {
            let m = &defs[k];
            let args = argument_table(&m.params, &ws);
            let body = substitute(&args, &m.body);
            let inner = split_statements(&body);
            expand_all(defs, consts, &inner, buffer, Ghost((fuel - 1) as nat));
        },
        None => {
            let st = substitute(consts, stmt);
            proof {
                lemma_views_push(buffer@, st);
            }
            buffer.push(st);
        },
    }
}

/// Appends the statements that each of `stmts` expands to, in order.
fn expand_all(
    defs: &Vec<Macro>,
    consts: &Vec<Entry>,
    stmts: &Vec<Vec<char>>,
    buffer: &mut Vec<Vec<char>>,
    Ghost(fuel): Ghost<nat>,
)
    requires
        table_of(consts@) == constants(defs_of(defs@)),
        expand_seq(defs_of(defs@), views(stmts@), 0, fuel) is Some,
    ensures
        views(final(buffer)@) == views(old(buffer)@) + expand_seq(
            defs_of(defs@),
            views(stmts@),
            0,
            fuel,
        )->0,
    decreases fuel, stmts.len() + 1,
{
    let ghost d = defs_of(defs@);
    let ghost st = views(stmts@);
    let mut j: usize = 0;
    assert(views(buffer@) + expand_seq(d, st, 0, fuel)->0 == views(old(buffer)@) + expand_seq(
        d,
        st,
        0,
        fuel,
    )->0);
    while j < stmts.len()
        invariant
            j <= stmts.len(),
            d == defs_of(defs@),
            st == views(stmts@),
            table_of(consts@) == constants(d),
            expand_seq(d, st, j as int, fuel) is Some,
            views(buffer@) + expand_seq(d, st, j as int, fuel)->0 == views(old(buffer)@)
                + expand_seq(d, st, 0, fuel)->0,
        decreases stmts.len() - j,
    {
        expand(defs, consts, &stmts[j], buffer, Ghost(fuel));
        j += 1;
    }
}

/// The statements of `source` after preprocessing, expanding macros at most `fuel` deep:
/// comments removed, character literals replaced, definitions read, and every statement of the
/// rest expanded. `None` where a character literal or a definition is malformed, or where the
/// expansion nests deeper.
pub open spec fn spec_preprocess(source: Seq<char>, fuel: nat) -> Option<Seq<Seq<char>>> {
    match spec_char_literals(spec_strip_comments(source)) {
        None => None,
        Some(text) => match spec_collect(spec_lines(text)) {
            None => None,
            Some((defs, code)) => expand_seq(defs, spec_split_statements(code), 0, fuel),
        },
    }
}

/// Preprocessing does not depend on how deep expansion may nest, once it ends: any two
/// bounds under which it ends give the same statements.
pub proof fn lemma_preprocess_any_depth(source: Seq<char>, f: nat, g: nat)
    requires
        spec_preprocess(source, f) is Some,
        spec_preprocess(source, g) is Some,
    ensures
        spec_preprocess(source, f) == spec_preprocess(source, g),
{
    let text = spec_char_literals(spec_strip_comments(source))->0;
    let (defs, code) = spec_collect(spec_lines(text))->0;
    if f <= g {
        lemma_expand_seq_fuel(defs, spec_split_statements(code), 0, f, g);
    } else {
        lemma_expand_seq_fuel(defs, spec_split_statements(code), 0, g, f);
    }
}

/// Whether preprocessing `source` ends: its literals and definitions are well formed and no
/// macro expands into itself without end.
pub open spec fn preprocess_ends(source: Seq<char>) -> bool {
    exists|fuel: nat| #[trigger] spec_preprocess(source, fuel) is Some
}

/// The statements of `source` after preprocessing.
pub open spec fn preprocessed(source: Seq<char>) -> Seq<Seq<char>> {
    spec_preprocess(source, choose|fuel: nat| #[trigger] spec_preprocess(source, fuel) is Some)->0
}

/// What preprocessing gives is what it gives under any bound under which it ends.
pub proof fn lemma_preprocessed(source: Seq<char>, fuel: nat)
    requires
        spec_preprocess(source, fuel) is Some,
    ensures
        preprocess_ends(source),
        preprocessed(source) == spec_preprocess(source, fuel)->0,
{
    let chosen = choose|f: nat| #[trigger] spec_preprocess(source, f) is Some;
    lemma_preprocess_any_depth(source, fuel, chosen);
}

/// The statements of `source` after preprocessing (see [`spec_preprocess`]).
pub fn preprocess(source: &str) -> (r: Vec<String>)
    requires
        preprocess_ends(source@),
    ensures
        r@.map_values(|s: String| s@) == preprocessed(source@),
{
    let ghost fuel = choose|fuel: nat| #[trigger] spec_preprocess(source@, fuel) is Some;
    let src = to_chars(source);
    let stripped = strip_comments(&src);
    let text = char_literals(&stripped);
    let ls = lines(&text);
    let (defs, code) = collect(&ls).unwrap();
    let consts = constant_table(&defs);
    let stmts = split_statements(&code);
    let mut buffer: Vec<Vec<char>> = Vec::new();
    expand_all(&defs, &consts, &stmts, &mut buffer, Ghost(fuel));
    let mut out: Vec<String> = Vec::new();
    let mut k: usize = 0;
    while k < buffer.len()
        invariant
            k <= buffer.len(),
            out@.map_values(|s: String| s@) == views(buffer@).take(k as int),
        decreases buffer.len() - k,
    {
        let st = from_chars(&buffer[k]);
        assert(out@.push(st).map_values(|s: String| s@) == out@.map_values(|s: String| s@).push(
            st@,
        ));
        out.push(st);
        k += 1;
    }
    out
}

proof fn lemma_statements_push_newline(s: Seq<char>, i: int, cur: Seq<char>)
    requires
        0 <= i <= s.len(),
    ensures
        statements_from(s.push('\n'), i, cur) == statements_from(s, i, cur),
    decreases s.len() - i,
{
    let t = s.push('\n');
    if i < s.len() {
        assert(t[i] == s[i]);
        if is_delimiter(s[i]) {
            lemma_statements_push_newline(s, i + 1, seq![]);
        } else {
            lemma_statements_push_newline(s, i + 1, cur.push(s[i]));
        }
    } else {
        assert(t[i] == '\n');
        lemma_trim_push_whitespace(cur, '\n');
        assert(clean_statement(cur.push('\n')) == clean_statement(cur));
        assert(statements_from(t, i + 1, cur.push('\n')) == keep(cur.push('\n')));
        assert(statements_from(t, i, cur) == statements_from(t, i + 1, cur.push('\n')));
    }
}

proof fn lemma_words_from_nonempty(t: Seq<char>, i: int, cur: Seq<char>)
    requires
        cur.len() > 0,
    ensures
        words_from(t, i, cur).len() > 0,
    decreases t.len() - i,
{
    if i < t.len() && !is_whitespace(t[i]) {
        lemma_words_from_nonempty(t, i + 1, cur.push(t[i]));
    }
}

proof fn lemma_keep_words(p: Seq<char>)
    ensures
        forall|k: int| 0 <= k < keep(p).len() ==> #[trigger] words(keep(p)[k]).len() > 0,
{
    let t = clean_statement(p);
    if t.len() > 0 {
        lemma_trim_first(trim_end_by(trim(p), Strip::Char(';')));
        lemma_words_from_nonempty(t, 1, seq![t[0]]);
        assert(words(keep(p)[0]).len() > 0);
    }
}

proof fn lemma_statements_words(s: Seq<char>, i: int, cur: Seq<char>)
    ensures
        forall|k: int|
            0 <= k < statements_from(s, i, cur).len() ==> #[trigger] words(
                statements_from(s, i, cur)[k],
            ).len() > 0,
    decreases s.len() - i,
{
    if i < 0 || i >= s.len() {
        lemma_keep_words(cur);
        assert(statements_from(s, i, cur) == keep(cur));
    } else if is_delimiter(s[i]) {
        lemma_keep_words(cur.push(s[i]));
        lemma_statements_words(s, i + 1, seq![]);
        let a = keep(cur.push(s[i]));
        let b = statements_from(s, i + 1, seq![]);
        assert(statements_from(s, i, cur) == a + b);
        assert forall|k: int| 0 <= k < (a + b).len() implies #[trigger] words((a + b)[k]).len() > 0 by {
            if k < a.len() {
                assert((a + b)[k] == a[k]);
            } else {
                assert((a + b)[k] == b[k - a.len()]);
            }
        }
    } else {
        lemma_statements_words(s, i + 1, cur.push(s[i]));
        assert(statements_from(s, i, cur) == statements_from(s, i + 1, cur.push(s[i])));
    }
}

proof fn lemma_expand_plain(stmts: Seq<Seq<char>>, k: int)
    requires
        0 <= k <= stmts.len(),
        forall|j: int| 0 <= j < stmts.len() ==> #[trigger] words(stmts[j]).len() > 0,
    ensures
        expand_seq(seq![], stmts, k, 1) == Some(stmts.skip(k)),
    decreases stmts.len() - k,
{
    if k < stmts.len() {
        let st = stmts[k];
        assert(words(st).len() > 0);
        assert(constants(seq![]) =~= Seq::<(Seq<char>, Option<Seq<char>>)>::empty());
        lemma_substitute_unmatched(constants(seq![]), st);
        assert(macro_lookup(seq![], words(st)[0]) is None);
        assert(expand_spec(seq![], st, 1) == Some(seq![st]));
        lemma_expand_plain(stmts, k + 1);
        assert(seq![stmts[k]] + stmts.skip(k + 1) =~= stmts.skip(k));
    } else {
        assert(stmts.skip(k) =~= Seq::<Seq<char>>::empty());
    }
}

/// The lines `ls`, each followed by a line feed.
pub open spec fn joined_lines(ls: Seq<Seq<char>>) -> Seq<char>
    decreases ls.len(),
{
    if ls.len() == 0 {
        seq![]
    } else {
        ls[0] + seq!['\n'] + joined_lines(ls.drop_first())
    }
}

/// Whether a line starts (after whitespace) with the marker of a definition.
pub open spec fn is_definition_line(line: Seq<char>) -> bool {
    trim(line).len() >= 4 && trim(line).take(4) == def_marker()
}

proof fn lemma_collect_plain(ls: Seq<Seq<char>>, k: int, code: Seq<char>)
    requires
        0 <= k <= ls.len(),
        forall|j: int| 0 <= j < ls.len() ==> !is_definition_line(#[trigger] ls[j]),
    ensures
        collect_from(ls, k, seq![], code) == Some((Seq::<(Seq<char>, Seq<Seq<char>>, Seq<char>)>::empty(), code + joined_lines(ls.skip(k)))),
    decreases ls.len() - k,
{
    if k < ls.len() {
        assert(!is_definition_line(ls[k]));
        lemma_collect_plain(ls, k + 1, code + ls[k] + seq!['\n']);
        assert(ls.skip(k).drop_first() =~= ls.skip(k + 1));
        assert(ls.skip(k)[0] == ls[k]);
        assert(code + ls[k] + seq!['\n'] + joined_lines(ls.skip(k + 1)) =~= code + joined_lines(
            ls.skip(k),
        ));
    } else {
        assert(ls.skip(k) =~= Seq::<Seq<char>>::empty());
        assert(code + Seq::<char>::empty() =~= code);
    }
}

/// `t` ending with a line feed: `t` itself where it is empty or already ends with one.
pub open spec fn newline_closed(t: Seq<char>) -> Seq<char> {
    if t.len() > 0 && t.last() != '\n' {
        t.push('\n')
    } else {
        t
    }
}

proof fn lemma_lines_joined(s: Seq<char>, i: int, cur: Seq<char>)
    requires
        0 <= i <= s.len(),
        !s.contains('\r'),
        forall|j: int| 0 <= j < cur.len() ==> #[trigger] cur[j] != '\n' && cur[j] != '\r',
    ensures
        joined_lines(lines_from(s, i, cur)) == newline_closed(cur + s.skip(i)),
    decreases s.len() - i,
{
    let e = Seq::<Seq<char>>::empty();
    assert(joined_lines(e) == Seq::<char>::empty());
    if i >= s.len() {
        assert(s.skip(i) =~= Seq::<char>::empty());
        assert(cur + s.skip(i) =~= cur);
        if cur.len() > 0 {
            assert(lines_from(s, i, cur) == seq![cur]);
            assert(seq![cur].drop_first() =~= e);
            assert(joined_lines(seq![cur]) == cur + seq!['\n'] + joined_lines(e));
            assert(cur.last() == cur[cur.len() - 1]);
            assert(cur + seq!['\n'] + Seq::<char>::empty() =~= cur.push('\n'));
        } else {
            assert(lines_from(s, i, cur) == e);
            assert(cur =~= Seq::<char>::empty());
        }
    } else if s[i] == '\n' {
        lemma_lines_joined(s, i + 1, seq![]);
        let tail = s.skip(i + 1);
        assert(Seq::<char>::empty() + tail =~= tail);
        if cur.len() > 0 {
            assert(cur.last() == cur[cur.len() - 1]);
        }
        assert(strip_cr(cur) == cur);
        let rest = lines_from(s, i + 1, seq![]);
        assert(lines_from(s, i, cur) == seq![cur] + rest);
        assert((seq![cur] + rest).drop_first() =~= rest);
        assert((seq![cur] + rest)[0] == cur);
        assert(joined_lines(seq![cur] + rest) == cur + seq!['\n'] + joined_lines(rest));
        assert(joined_lines(rest) == newline_closed(tail));
        assert(cur + s.skip(i) =~= cur + seq!['\n'] + tail);
        let whole = cur + seq!['\n'] + tail;
        if tail.len() == 0 {
            assert(whole =~= cur + seq!['\n']);
            assert(whole.last() == '\n');
            assert(newline_closed(tail) == tail);
            assert(cur + seq!['\n'] + newline_closed(tail) =~= whole);
        } else {
            assert(whole.last() == tail.last());
            if tail.last() != '\n' {
                assert(whole.push('\n') =~= cur + seq!['\n'] + tail.push('\n'));
            }
        }
    } else {
        assert(s[i] != '\r');
        let c2 = cur.push(s[i]);
        assert forall|j: int| 0 <= j < c2.len() implies #[trigger] c2[j] != '\n' && c2[j] != '\r' by {
            if j < cur.len() {
                assert(c2[j] == cur[j]);
            }
        }
        lemma_lines_joined(s, i + 1, c2);
        assert(lines_from(s, i, cur) == lines_from(s, i + 1, c2));
        assert(c2 + s.skip(i + 1) =~= cur + s.skip(i));
    }
}

/// A source without definitions, comments, character literals or carriage returns is only
/// cut into statements: preprocessing it ends, and gives its statements as they are.
pub proof fn lemma_preprocess_plain(source: Seq<char>)
    requires
        no_comment_opener(source),
        !source.contains('\''),
        !source.contains('\r'),
        forall|j: int|
            0 <= j < spec_lines(source).len() ==> !is_definition_line(#[trigger] spec_lines(source)[j]),
    ensures
        preprocess_ends(source),
        preprocessed(source) == spec_split_statements(source),
{
    lemma_no_comment_kept(source);
    lemma_no_literal_kept(source);
    let ls = spec_lines(source);
    lemma_collect_plain(ls, 0, seq![]);
    assert(ls.skip(0) =~= ls);
    assert(Seq::<char>::empty() + joined_lines(ls) =~= joined_lines(ls));
    lemma_lines_joined(source, 0, seq![]);
    assert(Seq::<char>::empty() + source.skip(0) =~= source);
    let code = newline_closed(source);
    if code != source {
        lemma_statements_push_newline(source, 0, seq![]);
    }
    assert(spec_split_statements(code) == spec_split_statements(source));
    lemma_statements_words(source, 0, seq![]);
    lemma_expand_plain(spec_split_statements(source), 0);
    assert(spec_split_statements(source).skip(0) =~= spec_split_statements(source));
    assert(spec_preprocess(source, 1) == Some(spec_split_statements(source)));
    lemma_preprocessed(source, 1);
}

} // verus!
