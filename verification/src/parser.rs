//! The textual assembly notation: one instruction per line, a mnemonic
//! followed by its arguments (`LOAD 3`, `SWAP 0, 1`), parsed into
//! [`Instruction`] values and rendered back to text.

use vstd::prelude::*;
use vstd::string::{StrSliceExecFns, StringExecFns};

use crate::cpu::Instruction;

verus! {

/// Why a piece of assembly text was rejected.
#[derive(Debug, Clone, Copy, PartialEq, Eq, Structural)]
pub enum ParseError {
    /// The line is shaped like an instruction, but its mnemonic is unknown.
    InvalidOp,
    /// The line does not hold a mnemonic followed by the arguments it needs.
    NoArgs,
    /// An argument is not a machine integer.
    ArgParse,
}

/// A character that may stand in a mnemonic: a letter, a digit or an
/// underscore.
pub open spec fn is_word_char(c: char) -> bool {
    ||| 'A' <= c <= 'Z'
    ||| 'a' <= c <= 'z'
    ||| '0' <= c <= '9'
    ||| c == '_'
}

/// A blank character inside a line.
pub open spec fn is_space_char(c: char) -> bool {
    c == ' ' || c == '\t'
}

/// A character that may stand in an argument token.
pub open spec fn is_arg_char(c: char) -> bool {
    ('0' <= c <= '9') || c == '-'
}

/// A decimal digit.
pub open spec fn is_digit_char(c: char) -> bool {
    '0' <= c <= '9'
}

/// The first position at or after `i` that does not hold a word character.
pub open spec fn scan_word_end(s: Seq<char>, i: int) -> int
    decreases s.len() - i,
{
    if i < 0 || i >= s.len() || !is_word_char(s[i]) {
        i
    } else {
        scan_word_end(s, i + 1)
    }
}

/// The first position at or after `i` that does not hold a blank.
pub open spec fn scan_space_end(s: Seq<char>, i: int) -> int
    decreases s.len() - i,
{
    if i < 0 || i >= s.len() || !is_space_char(s[i]) {
        i
    } else {
        scan_space_end(s, i + 1)
    }
}

/// The first position at or after `i` that does not hold an argument
/// character.
pub open spec fn scan_arg_end(s: Seq<char>, i: int) -> int
    decreases s.len() - i,
{
    if i < 0 || i >= s.len() || !is_arg_char(s[i]) {
        i
    } else {
        scan_arg_end(s, i + 1)
    }
}

/// The position of the first newline at or after `i`, or the text's length.
pub open spec fn scan_newline(s: Seq<char>, i: int) -> int
    decreases s.len() - i,
{
    if i < 0 || i >= s.len() || s[i] == '\n' {
        i
    } else {
        scan_newline(s, i + 1)
    }
}

/// The numeric value of a sequence of decimal digits, most significant first.
pub open spec fn digits_val(tok: Seq<char>) -> int
    decreases tok.len(),
{
    if tok.len() == 0 {
        0
    } else {
        digits_val(tok.drop_last()) * 10 + (tok.last() as u32 - '0' as u32)
    }
}

/// Every character of the token is a decimal digit.
pub open spec fn all_digits(tok: Seq<char>) -> bool {
    forall|i: int| 0 <= i < tok.len() ==> is_digit_char(#[trigger] tok[i])
}

/// The machine integer an argument token stands for: rejected when the token
/// holds anything but digits (a minus sign, say), or overflows the machine.
pub open spec fn token_value(tok: Seq<char>) -> Result<usize, ParseError> {
    if !all_digits(tok) {
        Err(ParseError::ArgParse)
    } else if digits_val(tok) > usize::MAX {
        Err(ParseError::ArgParse)
    } else {
        Ok(digits_val(tok) as usize)
    }
}

/// The instruction that a mnemonic and its argument tokens stand for. The
/// argument tokens are read first, as numbers; then the mnemonic picks the
/// instruction and how many arguments it needs.
pub open spec fn build_instruction(
    word: Seq<char>,
    tok1: Seq<char>,
    tok2: Option<Seq<char>>,
) -> Result<Instruction, ParseError> {
    match token_value(tok1) {
        Err(e) => Err(e),
        Ok(v1) => {
            let second = match tok2 {
                None => Ok(None),
                Some(t) => match token_value(t) {
                    Err(e) => Err(e),
                    Ok(v2) => Ok(Some(v2)),
                },
            };
            match second {
                Err(e) => Err(e),
                Ok(v2opt) => {
                    if word == "LOAD"@ {
                        Ok(Instruction::Load(v1))
                    } else if word == "SWAP"@ {
                        match v2opt {
                            Some(v2) => Ok(Instruction::Swap(v1, v2)),
                            None => Err(ParseError::NoArgs),
                        }
                    } else if word == "XOR"@ {
                        match v2opt {
                            Some(v2) => Ok(Instruction::Xor(v1, v2)),
                            None => Err(ParseError::NoArgs),
                        }
                    } else if word == "INC"@ {
                        Ok(Instruction::Inc(v1))
                    } else {
                        Err(ParseError::InvalidOp)
                    }
                },
            }
        },
    }
}

/// One line of assembly: optional blanks, a mnemonic, at least one blank, a
/// first argument token, and optionally a comma, blanks and a second token.
/// Anything after the recognised part is ignored.
pub open spec fn spec_parse_line(line: Seq<char>) -> Result<Instruction, ParseError> {
    let ws = scan_space_end(line, 0);
    let we = scan_word_end(line, ws);
    if we == ws {
        Err(ParseError::NoArgs)
    } else {
        let a1s = scan_space_end(line, we);
        if a1s == we {
            Err(ParseError::NoArgs)
        } else {
            let a1e = scan_arg_end(line, a1s);
            if a1e == a1s {
                Err(ParseError::NoArgs)
            } else if a1e < line.len() && line[a1e] == ',' {
                let a2s = scan_space_end(line, a1e + 1);
                let a2e = scan_arg_end(line, a2s);
                if a2e == a2s {
                    Err(ParseError::NoArgs)
                } else {
                    build_instruction(
                        line.subrange(ws, we),
                        line.subrange(a1s, a1e),
                        Some(line.subrange(a2s, a2e)),
                    )
                }
            } else {
                build_instruction(line.subrange(ws, we), line.subrange(a1s, a1e), None)
            }
        }
    }
}

/// One line's text, with a carriage return before the newline stripped.
pub open spec fn strip_cr(line: Seq<char>) -> Seq<char> {
    if line.len() > 0 && line.last() == '\r' {
        line.drop_last()
    } else {
        line
    }
}

/// The first newline at or after `i` lies between `i` and the text's end.
proof fn lemma_scan_newline_bounds(s: Seq<char>, i: int)
    requires
        0 <= i <= s.len(),
    ensures
        i <= scan_newline(s, i) <= s.len(),
    decreases s.len() - i,
{
    if i < s.len() && s[i] != '\n' {
        lemma_scan_newline_bounds(s, i + 1);
    }
}

#[via_fn]
proof fn spec_parse_from_decreases(s: Seq<char>, i: int) {
    if 0 <= i < s.len() {
        lemma_scan_newline_bounds(s, i);
    }
}

/// The whole text from position `i` on, parsed line by line; the first bad
/// line decides the error.
pub open spec fn spec_parse_from(s: Seq<char>, i: int) -> Result<Seq<Instruction>, ParseError>
    decreases s.len() - i,
    via spec_parse_from_decreases
{
    if i < 0 || i >= s.len() {
        Ok(Seq::empty())
    } else {
        let nl = scan_newline(s, i);
        match spec_parse_line(strip_cr(s.subrange(i, nl))) {
            Err(e) => Err(e),
            Ok(instr) => {
                if nl >= s.len() {
                    Ok(seq![instr])
                } else {
                    match spec_parse_from(s, nl + 1) {
                        Err(e) => Err(e),
                        Ok(rest) => Ok(seq![instr] + rest),
                    }
                }
            },
        }
    }
}

/// A whole assembly text, parsed line by line.
pub open spec fn spec_parse(s: Seq<char>) -> Result<Seq<Instruction>, ParseError> {
    spec_parse_from(s, 0)
}

proof fn lemma_scan_word_end_is(s: Seq<char>, i: int, e: int)
    requires
        0 <= i <= e <= s.len(),
        forall|j: int| i <= j < e ==> is_word_char(#[trigger] s[j]),
        e == s.len() || !is_word_char(s[e]),
    ensures
        scan_word_end(s, i) == e,
    decreases e - i,
{
    if i < e {
        lemma_scan_word_end_is(s, i + 1, e);
    }
}

proof fn lemma_scan_space_end_is(s: Seq<char>, i: int, e: int)
    requires
        0 <= i <= e <= s.len(),
        forall|j: int| i <= j < e ==> is_space_char(#[trigger] s[j]),
        e == s.len() || !is_space_char(s[e]),
    ensures
        scan_space_end(s, i) == e,
    decreases e - i,
{
    if i < e {
        lemma_scan_space_end_is(s, i + 1, e);
    }
}

proof fn lemma_scan_arg_end_is(s: Seq<char>, i: int, e: int)
    requires
        0 <= i <= e <= s.len(),
        forall|j: int| i <= j < e ==> is_arg_char(#[trigger] s[j]),
        e == s.len() || !is_arg_char(s[e]),
    ensures
        scan_arg_end(s, i) == e,
    decreases e - i,
{
    if i < e {
        lemma_scan_arg_end_is(s, i + 1, e);
    }
}

proof fn lemma_scan_newline_is(s: Seq<char>, i: int, e: int)
    requires
        0 <= i <= e <= s.len(),
        forall|j: int| i <= j < e ==> #[trigger] s[j] != '\n',
        e == s.len() || s[e] == '\n',
    ensures
        scan_newline(s, i) == e,
    decreases e - i,
{
    if i < e {
        lemma_scan_newline_is(s, i + 1, e);
    }
}

/// A longer digit string never stands for a smaller number.
proof fn lemma_digits_val_monotone(tok: Seq<char>, i: int, j: int)
    requires
        0 <= i <= j <= tok.len(),
        all_digits(tok),
    ensures
        0 <= digits_val(tok.subrange(0, i)) <= digits_val(tok.subrange(0, j)),
    decreases j - i,
{
    if i == j {
        lemma_digits_val_nonneg(tok.subrange(0, i));
    } else {
        lemma_digits_val_monotone(tok, i, j - 1);
        let pre = tok.subrange(0, j - 1);
        let cur = tok.subrange(0, j);
        assert(cur.drop_last() =~= pre);
        assert(is_digit_char(cur.last()));
        lemma_digits_val_nonneg(pre);
    }
}

proof fn lemma_digits_val_nonneg(tok: Seq<char>)
    requires
        all_digits(tok),
    ensures
        digits_val(tok) >= 0,
    decreases tok.len(),
{
    if tok.len() > 0 {
        assert forall|i: int| 0 <= i < tok.drop_last().len() implies is_digit_char(
            #[trigger] tok.drop_last()[i],
        ) by {
            assert(tok.drop_last()[i] == tok[i]);
        }
        lemma_digits_val_nonneg(tok.drop_last());
    }
}

/// The machine integer an argument token of `s` stands for; `Err` when the
/// token holds anything but digits or does not fit the machine.
fn parse_usize_token(s: &str, from: usize, to: usize) -> (r: Result<usize, ParseError>)
    requires
        from <= to <= s@.len(),
    ensures
        r == token_value(s@.subrange(from as int, to as int)),
{
    let ghost tok = s@.subrange(from as int, to as int);
    let mut value: usize = 0;
    for i in from..to
        invariant
            from <= i <= to <= s@.len(),
            tok == s@.subrange(from as int, to as int),
            all_digits(tok.subrange(0, i - from)),
            value == digits_val(tok.subrange(0, i - from)),
    {
        let c = s.get_char(i);
        proof {
            assert(tok[i - from] == s@[i as int]);
        }
        if c < '0' || c > '9' {
            proof {
                assert(!is_digit_char(tok[i - from]));
                assert(!all_digits(tok));
            }
            return Err(ParseError::ArgParse);
        }
        let d: usize = (c as u32 as usize) - 48;
        proof {
            assert(is_digit_char(tok[i - from]));
            assert(d == tok[i - from] as u32 - '0' as u32);
            assert(tok.subrange(0, i - from + 1).drop_last() =~= tok.subrange(0, i - from));
            assert(tok.subrange(0, i - from + 1).last() == tok[i - from]);
            lemma_digits_val_nonneg(tok.subrange(0, i - from));
        }
        if value > (usize::MAX - d) / 10 {
            proof {
                assert(value * 10 + d > usize::MAX) by (nonlinear_arith)
                    requires
                        value > (usize::MAX - d) / 10,
                        0 <= d,
                        usize::MAX - d >= ((usize::MAX - d) / 10) * 10,
                ;
                assert(usize::MAX - d >= ((usize::MAX - d) / 10) * 10) by (nonlinear_arith)
                    requires
                        d <= usize::MAX,
                ;
                assert(digits_val(tok.subrange(0, i - from + 1)) > usize::MAX);
                if all_digits(tok) {
                    lemma_digits_val_monotone(tok, i - from + 1, tok.len() as int);
                    assert(tok.subrange(0, tok.len() as int) =~= tok);
                }
            }
            return Err(ParseError::ArgParse);
        }
        proof {
            assert(value * 10 + d <= usize::MAX) by (nonlinear_arith)
                requires
                    value <= (usize::MAX - d) / 10,
                    0 <= d <= usize::MAX,
                    ((usize::MAX - d) / 10) * 10 <= usize::MAX - d,
            ;
            assert(((usize::MAX - d) / 10) * 10 <= usize::MAX - d) by (nonlinear_arith)
                requires
                    d <= usize::MAX,
            ;
        }
        value = value * 10 + d;
    }
    proof {
        assert(tok.subrange(0, to - from) =~= tok);
    }
    Ok(value)
}

/// Whether the characters of `s` between `from` and `to` are exactly the
/// characters of `word`.
fn region_is(s: &str, from: usize, to: usize, word: &str) -> (r: bool)
    requires
        from <= to <= s@.len(),
    ensures
        r == (s@.subrange(from as int, to as int) == word@),
{
    let ghost region = s@.subrange(from as int, to as int);
    let n = word.unicode_len();
    if to - from != n {
        return false;
    }
    for i in 0..n
        invariant
            from <= to <= s@.len(),
            region == s@.subrange(from as int, to as int),
            n == word@.len(),
            to - from == n,
            forall|j: int| 0 <= j < i ==> region[j] == word@[j],
    {
        if s.get_char(from + i) != word.get_char(i) {
            assert(region[i as int] != word@[i as int]);
            return false;
        }
        assert(region[i as int] == word@[i as int]);
    }
    proof {
        assert(region =~= word@);
    }
    true
}

/// Whether the character of `s` at `i` is a blank.
fn char_is_space_at(s: &str, i: usize) -> (r: bool)
    requires
        i < s@.len(),
    ensures
        r == is_space_char(s@[i as int]),
{
    let c = s.get_char(i);
    c == ' ' || c == '\t'
}

/// Whether the character of `s` at `i` may stand in a mnemonic.
fn char_is_word_at(s: &str, i: usize) -> (r: bool)
    requires
        i < s@.len(),
    ensures
        r == is_word_char(s@[i as int]),
{
    let c = s.get_char(i);
    ('A' <= c && c <= 'Z') || ('a' <= c && c <= 'z') || ('0' <= c && c <= '9') || c == '_'
}

/// Whether the character of `s` at `i` may stand in an argument token.
fn char_is_arg_at(s: &str, i: usize) -> (r: bool)
    requires
        i < s@.len(),
    ensures
        r == is_arg_char(s@[i as int]),
{
    let c = s.get_char(i);
    ('0' <= c && c <= '9') || c == '-'
}

/// One line of assembly text, parsed into the instruction it stands for.
pub fn parse_instruction_line(line: &str) -> (r: Result<Instruction, ParseError>)
    ensures
        r == spec_parse_line(line@),
{
    let n = line.unicode_len();
    let ghost l = line@;
    let mut ws: usize = 0;
    while ws < n && char_is_space_at(line, ws)
        invariant
            l == line@,
            n == l.len(),
            0 <= ws <= n,
            forall|j: int| 0 <= j < ws ==> is_space_char(#[trigger] l[j]),
        decreases n - ws,
    {
        ws = ws + 1;
    }
    proof {
        lemma_scan_space_end_is(l, 0, ws as int);
    }
    let mut we: usize = ws;
    while we < n && char_is_word_at(line, we)
        invariant
            l == line@,
            n == l.len(),
            ws <= we <= n,
            forall|j: int| ws <= j < we ==> is_word_char(#[trigger] l[j]),
        decreases n - we,
    {
        we = we + 1;
    }
    proof {
        lemma_scan_word_end_is(l, ws as int, we as int);
    }
    if we == ws {
        return Err(ParseError::NoArgs);
    }
    let mut a1s: usize = we;
    while a1s < n && char_is_space_at(line, a1s)
        invariant
            l == line@,
            n == l.len(),
            we <= a1s <= n,
            forall|j: int| we <= j < a1s ==> is_space_char(#[trigger] l[j]),
        decreases n - a1s,
    {
        a1s = a1s + 1;
    }
    proof {
        lemma_scan_space_end_is(l, we as int, a1s as int);
    }
    if a1s == we {
        return Err(ParseError::NoArgs);
    }
    let mut a1e: usize = a1s;
    while a1e < n && char_is_arg_at(line, a1e)
        invariant
            l == line@,
            n == l.len(),
            a1s <= a1e <= n,
            forall|j: int| a1s <= j < a1e ==> is_arg_char(#[trigger] l[j]),
        decreases n - a1e,
    {
        a1e = a1e + 1;
    }
    proof {
        lemma_scan_arg_end_is(l, a1s as int, a1e as int);
    }
    if a1e == a1s {
        return Err(ParseError::NoArgs);
    }
    let has_second = a1e < n && line.get_char(a1e) == ',';
    if has_second {
        let mut a2s: usize = a1e + 1;
        while a2s < n && char_is_space_at(line, a2s)
            invariant
                l == line@,
                n == l.len(),
                a1e + 1 <= a2s <= n,
                forall|j: int| a1e + 1 <= j < a2s ==> is_space_char(#[trigger] l[j]),
            decreases n - a2s,
        {
            a2s = a2s + 1;
        }
        proof {
            lemma_scan_space_end_is(l, a1e as int + 1, a2s as int);
        }
        let mut a2e: usize = a2s;
        while a2e < n && char_is_arg_at(line, a2e)
            invariant
                l == line@,
                n == l.len(),
                a2s <= a2e <= n,
                forall|j: int| a2s <= j < a2e ==> is_arg_char(#[trigger] l[j]),
            decreases n - a2e,
        {
            a2e = a2e + 1;
        }
        proof {
            lemma_scan_arg_end_is(l, a2s as int, a2e as int);
        }
        if a2e == a2s {
            return Err(ParseError::NoArgs);
        }
        finish_instruction(line, ws, we, a1s, a1e, Some((a2s, a2e)))
    } else {
        finish_instruction(line, ws, we, a1s, a1e, None)
    }
}

/// Read the argument tokens as numbers and let the mnemonic pick the
/// instruction.
fn finish_instruction(
    line: &str,
    ws: usize,
    we: usize,
    a1s: usize,
    a1e: usize,
    second: Option<(usize, usize)>,
) -> (r: Result<Instruction, ParseError>)
    requires
        ws <= we <= a1s <= a1e <= line@.len(),
        second matches Some(bounds) ==> a1e <= bounds.0 <= bounds.1 <= line@.len(),
    ensures
        r == build_instruction(
            line@.subrange(ws as int, we as int),
            line@.subrange(a1s as int, a1e as int),
            match second {
                Some(bounds) => Some(line@.subrange(bounds.0 as int, bounds.1 as int)),
                None => None,
            },
        ),
{
    let v1 = match parse_usize_token(line, a1s, a1e) {
        Ok(v) => v,
        Err(e) => {
            return Err(e);
        },
    };
    let v2opt = match second {
        Some((a2s, a2e)) => match parse_usize_token(line, a2s, a2e) {
            Ok(v) => Some(v),
            Err(e) => {
                return Err(e);
            },
        },
        None => None,
    };
    if region_is(line, ws, we, "LOAD") {
        Ok(Instruction::Load(v1))
    } else if region_is(line, ws, we, "SWAP") {
        match v2opt {
            Some(v2) => Ok(Instruction::Swap(v1, v2)),
            None => Err(ParseError::NoArgs),
        }
    } else if region_is(line, ws, we, "XOR") {
        match v2opt {
            Some(v2) => Ok(Instruction::Xor(v1, v2)),
            None => Err(ParseError::NoArgs),
        }
    } else if region_is(line, ws, we, "INC") {
        Ok(Instruction::Inc(v1))
    } else {
        Err(ParseError::InvalidOp)
    }
}

impl core::str::FromStr for Instruction {
    type Err = ParseError;

    fn from_str(s: &str) -> Result<Instruction, ParseError> {
        parse_instruction_line(s)
    }
}

/// A whole assembly text, one instruction per line, parsed in order; the
/// first bad line decides the error.
pub fn parse(assembly: &str) -> (r: Result<Vec<Instruction>, ParseError>)
    ensures
        r matches Ok(v) ==> spec_parse(assembly@) == Ok::<Seq<Instruction>, ParseError>(v@),
        r matches Err(e) ==> spec_parse(assembly@) == Err::<Seq<Instruction>, ParseError>(e),
{
    let ghost s = assembly@;
    let n = assembly.unicode_len();
    let mut acc: Vec<Instruction> = Vec::new();
    let mut start: usize = 0;
    while start < n
        invariant
            s == assembly@,
            n == s.len(),
            0 <= start <= n,
            (match spec_parse_from(s, start as int) {
                Ok(rest) => spec_parse(s) == Ok::<Seq<Instruction>, ParseError>(acc@ + rest),
                Err(e) => spec_parse(s) == Err::<Seq<Instruction>, ParseError>(e),
            }),
        decreases n - start,
    {
        let mut nl: usize = start;
        while nl < n && line_char_is_not_newline(assembly, nl)
            invariant
                s == assembly@,
                n == s.len(),
                start <= nl <= n,
                forall|j: int| start <= j < nl ==> #[trigger] s[j] != '\n',
            decreases n - nl,
        {
            nl = nl + 1;
        }
        proof {
            lemma_scan_newline_is(s, start as int, nl as int);
        }
        let mut line_end = nl;
        if line_end > start && line_char_is_cr(assembly, line_end - 1) {
            line_end = line_end - 1;
        }
        let line = assembly.substring_char(start, line_end);
        proof {
            assert(line@ =~= strip_cr(s.subrange(start as int, nl as int)));
        }
        let ghost acc_old = acc@;
        match parse_instruction_line(line) {
            Ok(instr) => {
                acc.push(instr);
                proof {
                    assert(acc@ == acc_old.push(instr));
                    if nl < n {
                        match spec_parse_from(s, nl + 1) {
                            Ok(rest2) => {
                                assert(acc_old + (seq![instr] + rest2) =~= acc@ + rest2);
                            },
                            Err(_) => {},
                        }
                    } else {
                        assert(acc_old + seq![instr] =~= acc@);
                        assert(acc@ + Seq::<Instruction>::empty() =~= acc@);
                    }
                }
            },
            Err(e) => {
                return Err(e);
            },
        }
        start = if nl < n {
            nl + 1
        } else {
            n
        };
    }
    proof {
        assert(acc@ + Seq::<Instruction>::empty() =~= acc@);
    }
    Ok(acc)
}

/// Whether the character of `s` at `i` is not a newline.
fn line_char_is_not_newline(s: &str, i: usize) -> (r: bool)
    requires
        i < s@.len(),
    ensures
        r == (s@[i as int] != '\n'),
{
    s.get_char(i) != '\n'
}

/// Whether the character of `s` at `i` is a carriage return.
fn line_char_is_cr(s: &str, i: usize) -> (r: bool)
    requires
        i < s@.len(),
    ensures
        r == (s@[i as int] == '\r'),
{
    s.get_char(i) == '\r'
}

/// The digit character of a value below ten.
pub open spec fn dec_digit_char(d: int) -> char {
    if d == 0 {
        '0'
    } else if d == 1 {
        '1'
    } else if d == 2 {
        '2'
    } else if d == 3 {
        '3'
    } else if d == 4 {
        '4'
    } else if d == 5 {
        '5'
    } else if d == 6 {
        '6'
    } else if d == 7 {
        '7'
    } else if d == 8 {
        '8'
    } else {
        '9'
    }
}

/// The decimal text of a non-negative number, most significant digit first.
pub open spec fn dec_str(n: int) -> Seq<char>
    decreases n,
{
    if n < 10 {
        seq![dec_digit_char(n)]
    } else {
        dec_str(n / 10).push(dec_digit_char(n % 10))
    }
}

/// The assembly text of one instruction.
pub open spec fn render_instruction(instr: Instruction) -> Seq<char> {
    match instr {
        Instruction::Load(v) => "LOAD "@ + dec_str(v as int),
        Instruction::Swap(a, b) => "SWAP "@ + dec_str(a as int) + ", "@ + dec_str(b as int),
        Instruction::Xor(a, b) => "XOR "@ + dec_str(a as int) + ", "@ + dec_str(b as int),
        Instruction::Inc(a) => "INC "@ + dec_str(a as int),
    }
}

/// The assembly text of a whole program: one instruction per line, with a
/// newline between lines and none at the end.
pub open spec fn render_program(p: Seq<Instruction>) -> Seq<char>
    decreases p.len(),
{
    if p.len() == 0 {
        Seq::empty()
    } else if p.len() == 1 {
        render_instruction(p[0])
    } else {
        render_program(p.drop_last()) + seq!['\n'] + render_instruction(p.last())
    }
}

/// The single digit character of a value below ten, as text.
fn digit_text(d: usize) -> (r: String)
    requires
        d < 10,
    ensures
        r@ == seq![dec_digit_char(d as int)],
{
    let r = if d == 0 {
        String::from_str("0")
    } else if d == 1 {
        String::from_str("1")
    } else if d == 2 {
        String::from_str("2")
    } else if d == 3 {
        String::from_str("3")
    } else if d == 4 {
        String::from_str("4")
    } else if d == 5 {
        String::from_str("5")
    } else if d == 6 {
        String::from_str("6")
    } else if d == 7 {
        String::from_str("7")
    } else if d == 8 {
        String::from_str("8")
    } else {
        String::from_str("9")
    };
    proof {
        reveal_strlit("0");
        reveal_strlit("1");
        reveal_strlit("2");
        reveal_strlit("3");
        reveal_strlit("4");
        reveal_strlit("5");
        reveal_strlit("6");
        reveal_strlit("7");
        reveal_strlit("8");
        reveal_strlit("9");
        assert(r@ =~= seq![dec_digit_char(d as int)]);
    }
    r
}

/// The decimal text of a machine integer.
fn render_usize(n: usize) -> (r: String)
    ensures
        r@ == dec_str(n as int),
    decreases n,
{
    if n < 10 {
        digit_text(n)
    } else {
        let mut r = render_usize(n / 10);
        let last = digit_text(n % 10);
        r.append(last.as_str());
        proof {
            assert(r@ =~= dec_str((n / 10) as int).push(dec_digit_char((n % 10) as int)));
        }
        r
    }
}

/// The assembly text of one instruction.
fn render_instruction_text(instr: &Instruction) -> (r: String)
    ensures
        r@ == render_instruction(*instr),
{
    match instr {
        Instruction::Load(v) => {
            let mut r = String::from_str("LOAD ");
            r.append(render_usize(*v).as_str());
            r
        },
        Instruction::Swap(a, b) => {
            let mut r = String::from_str("SWAP ");
            r.append(render_usize(*a).as_str());
            r.append(", ");
            r.append(render_usize(*b).as_str());
            r
        },
        Instruction::Xor(a, b) => {
            let mut r = String::from_str("XOR ");
            r.append(render_usize(*a).as_str());
            r.append(", ");
            r.append(render_usize(*b).as_str());
            r
        },
        Instruction::Inc(a) => {
            let mut r = String::from_str("INC ");
            r.append(render_usize(*a).as_str());
            r
        },
    }
}

/// A program of at least one more instruction renders as the shorter program,
/// a newline, and the last instruction.
proof fn lemma_render_program_snoc(p: Seq<Instruction>, instr: Instruction)
    requires
        p.len() >= 1,
    ensures
        render_program(p.push(instr)) == render_program(p) + seq!['\n'] + render_instruction(
            instr,
        ),
{
    let q = p.push(instr);
    assert(q.drop_last() =~= p);
    assert(q.last() == instr);
}

/// The assembly text of a whole program: each instruction on a line of its
/// own, lines joined by newlines.
pub fn output(program: &Vec<Instruction>) -> (r: String)
    ensures
        r@ == render_program(program@),
{
    let mut r = String::new();
    for i in 0..program.len()
        invariant
            r@ == render_program(program@.take(i as int)),
    {
        if i > 0 {
            r.append("\n");
        }
        let line = render_instruction_text(&program[i]);
        r.append(line.as_str());
        proof {
            let taken = program@.take(i as int);
            let taken1 = program@.take(i + 1);
            assert(taken1 =~= taken.push(program@[i as int]));
            if i > 0 {
                lemma_render_program_snoc(taken, program@[i as int]);
                reveal_strlit("\n");
                assert(r@ =~= render_program(taken1));
            } else {
                assert(taken1.len() == 1);
                assert(render_program(taken1) == render_instruction(program@[0]));
                assert(r@ =~= render_program(taken1));
            }
        }
    }
    proof {
        assert(program@.take(program@.len() as int) =~= program@);
    }
    r
}

} // verus!
