//! Programs: statements separated by `;`, each a keyword and its operands.
//!
//! `rg reg expr` sets a register to an expression, `store [mem] reg` and `load reg [mem]`
//! move a register to or from the memory that another register points to, and
//! `syscall expr` makes a system call. Other statements are ignored.
use vstd::prelude::*;
use crate::bytestream::{elf_headers, ByteStream};
use crate::common::{REGS, LOAD, STORE, SYSCALL};
use crate::encoder::{
    lemma_parse_same_registers, spec_parse_expression, try_parse_expression,
    x86_memory_code, x86_register_code,
};
use crate::target::{is_x86_64, x86_64, Isa};
use crate::text::{
    chars_eq, copy_range, from_chars, lemma_views_push, split_words, to_chars, trim, trim_end_by,
    trim_end_index, trim_range, trim_start_by, trim_start_index, views, words, Strip,
};

verus! {

/// `s` without the `open` characters at its start and the `close` characters at its end.
pub open spec fn spec_strip_parenthesis(s: Seq<char>, parens: (char, char)) -> Seq<char> {
    trim_end_by(trim_start_by(s, Strip::Char(parens.0)), Strip::Char(parens.1))
}

fn strip_range(s: &Vec<char>, parens: (char, char)) -> (r: Vec<char>)
    ensures
        r@ == spec_strip_parenthesis(s@, parens),
{
    assert(s@.subrange(0, s@.len() as int) == s@);
    let i = trim_start_index(s, 0, s.len(), Strip::Char(parens.0));
    let j = trim_end_index(s, i, s.len(), Strip::Char(parens.1));
    copy_range(s, i, j)
}

/// `string` without the opening characters at its start and the closing ones at its end
/// (`[r4]` gives `r4`).
pub fn strip_parenthesis(string: &str, parens: (char, char)) -> (r: String)
    ensures
        r@ == spec_strip_parenthesis(string@, parens),
{
    from_chars(&strip_range(&to_chars(string), parens))
}

/// The pieces of `s[i..]` between `;`s, where `cur` is the part of a piece already read; no
/// empty piece follows the last `;` (`str::split_terminator`).
pub open spec fn pieces_from(s: Seq<char>, i: int, cur: Seq<char>) -> Seq<Seq<char>>
    decreases s.len() - i,
{
    if i < 0 || i >= s.len() {
        if cur.len() > 0 {
            seq![cur]
        } else {
            seq![]
        }
    } else if s[i] == ';' {
        seq![cur] + pieces_from(s, i + 1, seq![])
    } else {
        pieces_from(s, i + 1, cur.push(s[i]))
    }
}

/// The statements of a program: the trimmed pieces between `;`s of the trimmed source.
pub open spec fn program_statements(source: Seq<char>) -> Seq<Seq<char>> {
    pieces_from(trim(source), 0, seq![]).map_values(|p: Seq<char>| trim(p))
}

/// The words after the first two, joined without spaces.
pub open spec fn joined(ws: Seq<Seq<char>>, k: int) -> Seq<char>
    decreases ws.len() - k,
{
    if k < 0 || k >= ws.len() {
        seq![]
    } else {
        ws[k] + joined(ws, k + 1)
    }
}

/// The code of one statement; `None` where it has no keyword, misses an operand or names
/// something unknown.
pub open spec fn statement_code(isa: &Isa, st: Seq<char>) -> Option<Seq<u8>> {
    let w = words(st);
    if w.len() == 0 {
        None
    } else if w[0] == "syscall"@ {
        if w.len() < 2 {
            None
        } else {
            match spec_parse_expression(isa, w[1]) {
                Some(v) => Some(x86_register_code(0, v) + SYSCALL@),
                None => None,
            }
        }
    } else if w[0] == "load"@ {
        if w.len() < 3 {
            None
        } else {
            match (
                REGS::spec_from_str(w[1]),
                REGS::spec_from_str(spec_strip_parenthesis(w[2], ('[', ']'))),
            ) {
                (Some(d), Some(m)) => Some(
                    x86_memory_code(LOAD@, d.spec_code(), m.spec_code(), 0),
                ),
                _ => None,
            }
        }
    } else if w[0] == "store"@ {
        if w.len() < 3 {
            None
        } else {
            match (
                REGS::spec_from_str(spec_strip_parenthesis(w[1], ('[', ']'))),
                REGS::spec_from_str(w[2]),
            ) {
                (Some(m), Some(r)) => Some(
                    x86_memory_code(STORE@, r.spec_code(), m.spec_code(), 0),
                ),
                _ => None,
            }
        }
    } else if w[0] == "rg"@ {
        if w.len() < 2 {
            None
        } else {
            match (REGS::spec_from_str(w[1]), spec_parse_expression(isa, joined(w, 2))) {
                (Some(d), Some(v)) => Some(x86_register_code(d.spec_code(), v)),
                _ => None,
            }
        }
    } else {
        Some(seq![])
    }
}

/// The code of the statements `sts[k..]`, in order.
pub open spec fn statements_code(isa: &Isa, sts: Seq<Seq<char>>, k: int) -> Option<Seq<u8>>
    decreases sts.len() - k,
{
    if k < 0 || k >= sts.len() {
        Some(seq![])
    } else {
        match statement_code(isa, sts[k]) {
            None => None,
            Some(a) => match statements_code(isa, sts, k + 1) {
                Some(b) => Some(a + b),
                None => None,
            },
        }
    }
}

/// The executable of a program: the headers, then the code of each statement.
pub open spec fn spec_assemble(isa: &Isa, source: Seq<char>) -> Option<Seq<u8>> {
    match statements_code(isa, program_statements(source), 0) {
        Some(c) => Some(elf_headers() + c),
        None => None,
    }
}

/// The pieces of `s[lo..hi]` between `;`s.
fn pieces(s: &Vec<char>, lo: usize, hi: usize) -> (r: Vec<Vec<char>>)
    requires
        lo <= hi <= s.len(),
    ensures
        views(r@) == pieces_from(s@.subrange(lo as int, hi as int), 0, seq![]),
{
    let ghost t = s@.subrange(lo as int, hi as int);
    let mut out: Vec<Vec<char>> = Vec::new();
    let mut start = lo;
    let mut i = lo;
    assert(s@.subrange(lo as int, lo as int) == Seq::<char>::empty());
    while i < hi
        invariant
            lo <= start <= i <= hi <= s.len(),
            t == s@.subrange(lo as int, hi as int),
            pieces_from(t, 0, seq![]) == views(out@) + pieces_from(
                t,
                i - lo,
                s@.subrange(start as int, i as int),
            ),
        decreases hi - i,
    {
        assert(s@.subrange(start as int, i as int).push(s@[i as int]) == s@.subrange(
            start as int,
            i + 1,
        ));
        if s[i] == ';' {
            let ghost before = views(out@);
            let piece = copy_range(s, start, i);
            proof {
                lemma_views_push(out@, piece);
            }
            out.push(piece);
            start = i + 1;
            assert(s@.subrange(start as int, start as int) == Seq::<char>::empty());
            assert(before + (seq![piece@] + pieces_from(t, i + 1 - lo, seq![])) == views(out@)
                + pieces_from(t, i + 1 - lo, seq![]));
        }
        i += 1;
    }
    if start < hi {
        let piece = copy_range(s, start, hi);
        proof {
            lemma_views_push(out@, piece);
        }
        out.push(piece);
    }
    out
}

/// The words `ws[2..]` joined without spaces.
fn join_from_2(ws: &Vec<Vec<char>>) -> (r: Vec<char>)
    ensures
        r@ == joined(views(ws@), 2),
{
    let ghost w = views(ws@);
    let mut out: Vec<char> = Vec::new();
    let mut k: usize = 2;
    while k < ws.len()
        invariant
            2 <= k || ws.len() <= k,
            w == views(ws@),
            out@ + joined(w, k as int) == joined(w, 2),
        decreases ws.len() - k,
    {
        let mut piece = ws[k].clone();
        out.append(&mut piece);
        k += 1;
    }
    out
}

proof fn lemma_statement_same_x86(a: &Isa, b: &Isa, st: Seq<char>)
    requires
        is_x86_64(a),
        is_x86_64(b),
    ensures
        statement_code(a, st) == statement_code(b, st),
{
    let w = words(st);
    if w.len() >= 2 {
        lemma_parse_same_registers(a, b, w[1]);
        lemma_parse_same_registers(a, b, joined(w, 2));
    }
}

proof fn lemma_statements_same_x86(a: &Isa, b: &Isa, sts: Seq<Seq<char>>, k: int)
    requires
        is_x86_64(a),
        is_x86_64(b),
    ensures
        statements_code(a, sts, k) == statements_code(b, sts, k),
    decreases sts.len() - k,
{
    if 0 <= k < sts.len() {
        lemma_statement_same_x86(a, b, sts[k]);
        lemma_statements_same_x86(a, b, sts, k + 1);
    }
}

/// A program means the same on every value of the x86-64 target.
pub proof fn lemma_assemble_same_x86(a: &Isa, b: &Isa, source: Seq<char>)
    requires
        is_x86_64(a),
        is_x86_64(b),
    ensures
        spec_assemble(a, source) == spec_assemble(b, source),
{
    lemma_statements_same_x86(a, b, program_statements(source), 0);
}

/// Whether the program `source` assembles for the x86-64 target.
pub open spec fn assembles(source: Seq<char>) -> bool {
    forall|isa: Isa| is_x86_64(&isa) ==> #[trigger] spec_assemble(&isa, source) is Some
}

impl ByteStream {
    /// Appends the code of one statement.
    fn process_statement(&mut self, st: &Vec<char>)
        requires
            is_x86_64(&old(self).target()),
            statement_code(&old(self).target(), st@) is Some,
        ensures
            final(self).target() == old(self).target(),
            final(self)@ == old(self)@ + statement_code(&old(self).target(), st@)->0,
    {
        assert(st@.subrange(0, st@.len() as int) == st@);
        let w = split_words(st, 0, st.len());
        let keyword = &w[0];
        if chars_eq(keyword, &to_chars("syscall")) {
            let value = from_chars(&w[1]);
            self.process_syscall(value.as_str());
        } else if chars_eq(keyword, &to_chars("load")) {
            let destination = from_chars(&w[1]);
            let memory = from_chars(&strip_range(&w[2], ('[', ']')));
            self.process_load(destination.as_str(), memory.as_str());
        } else if chars_eq(keyword, &to_chars("store")) {
            let memory = from_chars(&strip_range(&w[1], ('[', ']')));
            let source = from_chars(&w[2]);
            self.process_store(memory.as_str(), source.as_str());
        } else if chars_eq(keyword, &to_chars("rg")) {
            let name = from_chars(&w[1]);
            let value = from_chars(&join_from_2(&w));
            self.process_register(name.as_str(), value.as_str());
        }
    }
}

/// Whether one statement can be assembled.
fn check_statement(isa: &Isa, st: &Vec<char>) -> (b: bool)
    ensures
        b == statement_code(isa, st@) is Some,
{
    assert(st@.subrange(0, st@.len() as int) == st@);
    let w = split_words(st, 0, st.len());
    if w.len() == 0 {
        return false;
    }
    let keyword = &w[0];
    if chars_eq(keyword, &to_chars("syscall")) {
        if w.len() < 2 {
            return false;
        }
        let value = from_chars(&w[1]);
        try_parse_expression(isa, value.as_str()).is_some()
    } else if chars_eq(keyword, &to_chars("load")) {
        if w.len() < 3 {
            return false;
        }
        let destination = from_chars(&w[1]);
        let memory = from_chars(&strip_range(&w[2], ('[', ']')));
        REGS::from_str(destination.as_str()).is_some() && REGS::from_str(memory.as_str()).is_some()
    } else if chars_eq(keyword, &to_chars("store")) {
        if w.len() < 3 {
            return false;
        }
        let memory = from_chars(&strip_range(&w[1], ('[', ']')));
        let source = from_chars(&w[2]);
        REGS::from_str(memory.as_str()).is_some() && REGS::from_str(source.as_str()).is_some()
    } else if chars_eq(keyword, &to_chars("rg")) {
        if w.len() < 2 {
            return false;
        }
        let name = from_chars(&w[1]);
        let value = from_chars(&join_from_2(&w));
        REGS::from_str(name.as_str()).is_some() && try_parse_expression(isa, value.as_str()).is_some()
    } else {
        true
    }
}

/// The executable of the program `source`, or `None` where a statement has no keyword,
/// misses an operand or names an unknown register, or an expression does not parse.
pub fn try_assemble(source: &str) -> (r: Option<ByteStream>)
    ensures
        r is Some <==> assembles(source@),
        r matches Some(s) ==> is_x86_64(&s.target()) && Some(s@) == spec_assemble(
            &s.target(),
            source@,
        ),
{
    let isa = x86_64();
    let src = to_chars(source);
    assert(src@.subrange(0, src@.len() as int) == src@);
    let (a, b) = trim_range(&src, 0, src.len(), Strip::Whitespace);
    let ps = pieces(&src, a, b);
    let ghost sts = program_statements(source@);
    let mut k: usize = 0;
    while k < ps.len()
        invariant
            k <= ps.len(),
            sts.len() == ps.len(),
            sts == views(ps@).map_values(|p: Seq<char>| trim(p)),
            is_x86_64(&isa),
            sts == program_statements(source@),
            statements_code(&isa, sts, 0) is Some <==> statements_code(&isa, sts, k as int) is Some,
        decreases ps.len() - k,
    {
        let piece = &ps[k];
        assert(piece@.subrange(0, piece@.len() as int) == piece@);
        let (x, y) = trim_range(piece, 0, piece.len(), Strip::Whitespace);
        let st = copy_range(piece, x, y);
        if !check_statement(&isa, &st) {
            assert(spec_assemble(&isa, source@) is None);
            return None;
        }
        k += 1;
    }
    assert forall|other: Isa| is_x86_64(&other) implies #[trigger] spec_assemble(&other, source@) is Some by {
        lemma_assemble_same_x86(&isa, &other, source@);
    }
    Some(assemble(source))
}

/// The executable of the program `source` (see [`spec_assemble`]).
pub fn assemble(source: &str) -> (r: ByteStream)
    requires
        assembles(source@),
    ensures
        is_x86_64(&r.target()),
        Some(r@) == spec_assemble(&r.target(), source@),
{
    let mut stream = ByteStream::new();
    let ghost isa = stream.target();
    assert(spec_assemble(&isa, source@) is Some);
    let src = to_chars(source);
    assert(src@.subrange(0, src@.len() as int) == src@);
    let (a, b) = trim_range(&src, 0, src.len(), Strip::Whitespace);
    let ps = pieces(&src, a, b);
    let ghost sts = program_statements(source@);
    let mut k: usize = 0;
    assert(stream@ + statements_code(&isa, sts, 0)->0 == elf_headers() + statements_code(
        &isa,
        sts,
        0,
    )->0);
    while k < ps.len()
        invariant
            k <= ps.len(),
            sts.len() == ps.len(),
            sts == views(ps@).map_values(|p: Seq<char>| trim(p)),
            stream.target() == isa,
            is_x86_64(&isa),
            statements_code(&isa, sts, 0) is Some,
            statements_code(&isa, sts, k as int) is Some,
            stream@ + statements_code(&isa, sts, k as int)->0 == elf_headers() + statements_code(
                &isa,
                sts,
                0,
            )->0,
        decreases ps.len() - k,
    {
        let piece = &ps[k];
        assert(piece@.subrange(0, piece@.len() as int) == piece@);
        let (x, y) = trim_range(piece, 0, piece.len(), Strip::Whitespace);
        let st = copy_range(piece, x, y);
        stream.process_statement(&st);
        k += 1;
    }
    stream
}

} // verus!
