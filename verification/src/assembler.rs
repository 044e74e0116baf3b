//! The assembler: scans source lines character by character, discards
//! comments and whitespace, warns on unrecognized characters, and resolves
//! loop brackets into mutual jump targets via an explicit scope stack.

use vstd::prelude::*;

use crate::token::{comment_char, lemma_toks_view, lemma_toks_view_push, lemma_toks_view_update, opcode_char, toks_view, Token, TokenV};

verus! {

/// A non-fatal diagnostic: an unrecognized source character that was skipped.
#[derive(Clone, Copy, PartialEq, Eq, Structural, Debug)]
pub struct Warning {
    pub line: usize,
    pub ch: char,
}

impl View for Warning {
    /// A warning's view: its line number paired with the character.
    type V = (int, char);

    open spec fn view(&self) -> (int, char) {
        (self.line as int, self.ch)
    }
}

/// The two structural failures assembly can end in.
#[derive(Clone, Copy, PartialEq, Eq, Structural, Debug)]
pub enum AsmErrorKind {
    /// A close bracket arrived while no loop was open.
    UnmatchedClose,
    /// At least one open bracket was still unclosed at end of input.
    UnmatchedOpen,
}

/// A fatal assembly error, carrying the 1-based source line it names.
#[derive(Clone, Copy, PartialEq, Eq, Structural, Debug)]
pub struct AsmError {
    pub kind: AsmErrorKind,
    pub line: usize,
}

/// Mathematical view of an `AsmError`.
pub ghost struct AsmErrorV {
    pub kind: AsmErrorKind,
    pub line: int,
}

impl View for AsmError {
    type V = AsmErrorV;

    open spec fn view(&self) -> AsmErrorV {
        AsmErrorV { kind: self.kind, line: self.line as int }
    }
}

/// Whether a character counts as whitespace for the scanner.
pub uninterp spec fn is_whitespace_char(c: char) -> bool;

/// Relies on `char::is_whitespace` from std: whether the character has the
/// Unicode `White_Space` property, a function of the character alone.
#[verifier::external_body]
fn char_is_whitespace(c: char) -> (r: bool)
    ensures
        r == is_whitespace_char(c),
{
    c.is_whitespace()
}

/// The part of one source line that the scanner looks at: everything before
/// the first comment-start character.
pub open spec fn code_prefix(line: Seq<char>) -> Seq<char>
    decreases line.len(),
{
    if line.len() == 0 {
        Seq::empty()
    } else if comment_char(line[0]) {
        Seq::empty()
    } else {
        seq![line[0]] + code_prefix(line.drop_first())
    }
}

proof fn lemma_code_prefix_split(line: Seq<char>, j: int)
    requires
        0 <= j <= line.len(),
        forall|k: int| 0 <= k < j ==> !comment_char(line[k]),
    ensures
        code_prefix(line) == line.take(j) + code_prefix(line.skip(j)),
    decreases j,
{
    if j == 0 {
        assert(line.skip(0) =~= line);
        assert(line.take(0) + code_prefix(line) =~= code_prefix(line));
    } else {
        let rest = line.drop_first();
        assert(!comment_char(line[0]));
        assert(forall|k: int| 0 <= k < j - 1 ==> !comment_char(rest[k]));
        lemma_code_prefix_split(rest, j - 1);
        assert(rest.skip(j - 1) =~= line.skip(j));
        assert(seq![line[0]] + (rest.take(j - 1) + code_prefix(line.skip(j))) =~= line.take(j)
            + code_prefix(line.skip(j)));
    }
}

/// The scanned characters of one line, as a vector.
pub fn code_chars(line: &str) -> (v: Vec<char>)
    ensures
        v@ == code_prefix(line@),
{
    let n = line.unicode_len();
    let mut v: Vec<char> = Vec::new();
    let mut j: usize = 0;
    while j < n
        invariant
            0 <= j <= n,
            n == line@.len(),
            v@ == line@.take(j as int),
            forall|k: int| 0 <= k < j ==> !comment_char(line@[k]),
        decreases n - j,
    {
        let c = line.get_char(j);
        if c == '#' || c == '/' || c == ';' {
            proof {
                lemma_code_prefix_split(line@, j as int);
                assert(line@.skip(j as int)[0] == line@[j as int]);
                assert(code_prefix(line@.skip(j as int)) =~= Seq::<char>::empty());
                assert(code_prefix(line@) =~= line@.take(j as int));
            }
            return v;
        }
        v.push(c);
        proof {
            assert(v@ =~= line@.take(j as int + 1));
        }
        j = j + 1;
    }
    proof {
        lemma_code_prefix_split(line@, n as int);
        assert(code_prefix(line@.skip(n as int)) =~= Seq::<char>::empty());
        assert(code_prefix(line@) =~= line@.take(n as int));
        assert(line@.take(n as int) =~= line@);
    }
    v
}

/// A sequence of characters, each paired with the line number `ln`.
pub open spec fn pair_line(chars: Seq<char>, ln: int) -> Seq<(char, int)>
    decreases chars.len(),
{
    if chars.len() == 0 {
        Seq::empty()
    } else {
        pair_line(chars.drop_last(), ln).push((chars.last(), ln))
    }
}

proof fn lemma_pair_line(chars: Seq<char>, ln: int)
    ensures
        pair_line(chars, ln).len() == chars.len(),
        forall|k: int| 0 <= k < chars.len() ==> pair_line(chars, ln)[k] == (chars[k], ln),
    decreases chars.len(),
{
    if chars.len() > 0 {
        lemma_pair_line(chars.drop_last(), ln);
        let prefix = pair_line(chars.drop_last(), ln);
        let x = (chars.last(), ln);
        assert(pair_line(chars, ln) == prefix.push(x));
        assert forall|k: int| 0 <= k < chars.len() implies pair_line(chars, ln)[k] == (chars[k],
        ln) by {
            if k < chars.len() - 1 {
                assert(prefix.push(x)[k] == prefix[k]);
                assert(chars.drop_last()[k] == chars[k]);
            } else {
                assert(prefix.push(x)[k] == x);
            }
        }
    }
}

/// The views of a sequence of warnings, in order.
pub open spec fn warns_view(s: Seq<Warning>) -> Seq<(int, char)>
    decreases s.len(),
{
    if s.len() == 0 {
        Seq::empty()
    } else {
        warns_view(s.drop_last()).push(s.last()@)
    }
}

/// Pushing a warning extends the view by that warning's view.
pub proof fn lemma_warns_view_push(s: Seq<Warning>, w: Warning)
    ensures
        warns_view(s.push(w)) == warns_view(s).push(w@),
{
    let e = s.push(w);
    assert(e.drop_last() =~= s);
    assert(e.last() == w);
    assert(warns_view(e) == warns_view(e.drop_last()).push(e.last()@));
}

/// The scope stack's indices as mathematical integers.
pub open spec fn stack_view(s: Seq<usize>) -> Seq<int>
    decreases s.len(),
{
    if s.len() == 0 {
        Seq::empty()
    } else {
        stack_view(s.drop_last()).push(s.last() as int)
    }
}

/// `stack_view` keeps length and order.
pub proof fn lemma_stack_view(s: Seq<usize>)
    ensures
        stack_view(s).len() == s.len(),
        forall|k: int| 0 <= k < s.len() ==> stack_view(s)[k] == s[k] as int,
    decreases s.len(),
{
    if s.len() > 0 {
        lemma_stack_view(s.drop_last());
        let prefix = stack_view(s.drop_last());
        let x = s.last() as int;
        assert(stack_view(s) == prefix.push(x));
        assert forall|k: int| 0 <= k < s.len() implies stack_view(s)[k] == s[k] as int by {
            if k < s.len() - 1 {
                assert(prefix.push(x)[k] == prefix[k]);
                assert(s.drop_last()[k] == s[k]);
            } else {
                assert(prefix.push(x)[k] == x);
            }
        }
    }
}

/// Pushing an index extends the stack view by that index.
pub proof fn lemma_stack_view_push(s: Seq<usize>, u: usize)
    ensures
        stack_view(s.push(u)) == stack_view(s).push(u as int),
{
    let e = s.push(u);
    assert(e.drop_last() =~= s);
    assert(e.last() == u);
    assert(stack_view(e) == stack_view(e.drop_last()).push(e.last() as int));
}

/// Popping the top of the stack drops the last element of its view.
pub proof fn lemma_stack_view_drop_last(s: Seq<usize>)
    requires
        s.len() > 0,
    ensures
        stack_view(s.drop_last()) == stack_view(s).drop_last(),
        stack_view(s).last() == s.last() as int,
        stack_view(s).len() == s.len(),
{
    lemma_stack_view(s);
    let prefix = stack_view(s.drop_last());
    let x = s.last() as int;
    assert(stack_view(s) == prefix.push(x));
    assert(prefix.push(x).drop_last() =~= prefix);
    assert(prefix.push(x).last() == x);
}

/// The character sequences of the source lines, in order.
pub open spec fn lines_view(s: Seq<String>) -> Seq<Seq<char>>
    decreases s.len(),
{
    if s.len() == 0 {
        Seq::empty()
    } else {
        lines_view(s.drop_last()).push(s.last()@)
    }
}

/// `lines_view` is element-wise `view`.
pub proof fn lemma_lines_view(s: Seq<String>)
    ensures
        lines_view(s).len() == s.len(),
        forall|k: int| 0 <= k < s.len() ==> lines_view(s)[k] == s[k]@,
    decreases s.len(),
{
    if s.len() > 0 {
        lemma_lines_view(s.drop_last());
        let prefix = lines_view(s.drop_last());
        let x = s.last()@;
        assert(lines_view(s) == prefix.push(x));
        assert forall|k: int| 0 <= k < s.len() implies lines_view(s)[k] == s[k]@ by {
            if k < s.len() - 1 {
                assert(prefix.push(x)[k] == prefix[k]);
                assert(s.drop_last()[k] == s[k]);
            } else {
                assert(prefix.push(x)[k] == x);
            }
        }
    }
}

/// The scanned characters of one line, paired with that line's number.
pub open spec fn line_items(line: Seq<char>, ln: int) -> Seq<(char, int)> {
    pair_line(code_prefix(line), ln)
}

/// All scanned characters of the lines starting at line number `ln`.
pub open spec fn src_items_from(lines: Seq<Seq<char>>, ln: int) -> Seq<(char, int)>
    decreases lines.len(),
{
    if lines.len() == 0 {
        Seq::empty()
    } else {
        line_items(lines[0], ln) + src_items_from(lines.drop_first(), ln + 1)
    }
}

/// All scanned characters of a source text, lines numbered from 1.
pub open spec fn src_items(lines: Seq<Seq<char>>) -> Seq<(char, int)> {
    src_items_from(lines, 1)
}

/// Assembly-time state: the instructions emitted so far, the stack of
/// still-open loop-open indices, and the warnings reported so far.
pub ghost struct AsmState {
    pub toks: Seq<TokenV>,
    pub stack: Seq<int>,
    pub warns: Seq<(int, char)>,
}

/// The state assembly starts from.
pub open spec fn init_asm_state() -> AsmState {
    AsmState { toks: Seq::empty(), stack: Seq::empty(), warns: Seq::empty() }
}

/// A failed assembly: the structural error and the warnings reported before
/// the failure point.
pub ghost struct AsmFail {
    pub err: AsmErrorV,
    pub warns: Seq<(int, char)>,
}

/// What one scanned character does to the assembly state.
pub open spec fn asm_step(s: AsmState, it: (char, int)) -> Result<AsmState, AsmErrorV> {
    if it.0 == '[' {
        Ok(AsmState {
            toks: s.toks.push(TokenV { opcode: '[', jump_addr: None, line: it.1 }),
            stack: s.stack.push(s.toks.len() as int),
            warns: s.warns,
        })
    } else if it.0 == ']' {
        if s.stack.len() == 0 {
            Err(AsmErrorV { kind: AsmErrorKind::UnmatchedClose, line: it.1 })
        } else {
            let open = s.stack.last();
            let close = s.toks.len() as int;
            Ok(AsmState {
                toks: s.toks.update(
                    open,
                    TokenV {
                        opcode: s.toks[open].opcode,
                        jump_addr: Some(close),
                        line: s.toks[open].line,
                    },
                ).push(TokenV { opcode: ']', jump_addr: Some(open), line: it.1 }),
                stack: s.stack.drop_last(),
                warns: s.warns,
            })
        }
    } else if opcode_char(it.0) {
        Ok(AsmState {
            toks: s.toks.push(TokenV { opcode: it.0, jump_addr: None, line: it.1 }),
            stack: s.stack,
            warns: s.warns,
        })
    } else if is_whitespace_char(it.0) {
        Ok(s)
    } else {
        Ok(AsmState {
            toks: s.toks,
            stack: s.stack,
            warns: s.warns.push((it.1, it.0)),
        })
    }
}

/// Folds `asm_step` over a sequence of scanned characters.
pub open spec fn asm_fold(s: AsmState, items: Seq<(char, int)>) -> Result<AsmState, AsmFail>
    decreases items.len(),
{
    if items.len() == 0 {
        Ok(s)
    } else {
        match asm_step(s, items[0]) {
            Ok(s2) => asm_fold(s2, items.drop_first()),
            Err(e) => Err(AsmFail { err: e, warns: s.warns }),
        }
    }
}

/// The result of a whole assembly: the instruction stream or a structural
/// error, plus every warning reported on the way.
pub ghost struct AsmOutcome {
    pub result: Result<Seq<TokenV>, AsmErrorV>,
    pub warnings: Seq<(int, char)>,
}

/// End-of-input check: a non-empty scope stack is a dangling open bracket,
/// reported with the line of the innermost one.
pub open spec fn asm_finish(s: AsmState) -> AsmOutcome {
    if s.stack.len() == 0 {
        AsmOutcome { result: Ok(s.toks), warnings: s.warns }
    } else {
        AsmOutcome {
            result: Err(
                AsmErrorV { kind: AsmErrorKind::UnmatchedOpen, line: s.toks[s.stack.last()].line },
            ),
            warnings: s.warns,
        }
    }
}

/// Runs assembly to completion from a given state over given items.
pub open spec fn asm_complete(s: AsmState, items: Seq<(char, int)>) -> AsmOutcome {
    match asm_fold(s, items) {
        Ok(s2) => asm_finish(s2),
        Err(f) => AsmOutcome { result: Err(f.err), warnings: f.warns },
    }
}

/// What assembling a source text yields: the full model of `tokenize_lines`.
pub open spec fn spec_assemble(lines: Seq<Seq<char>>) -> AsmOutcome {
    asm_complete(init_asm_state(), src_items(lines))
}

/// View of an assembly result as the model states it.
pub open spec fn asm_result_view(r: Result<Vec<Token>, AsmError>) -> Result<Seq<TokenV>, AsmErrorV> {
    match r {
        Ok(v) => Ok(toks_view(v@)),
        Err(e) => Err(e@),
    }
}

/// The assembly state that a set of executable vectors stands for.
pub open spec fn asm_st(toks: Vec<Token>, stack: Vec<usize>, warns: Vec<Warning>) -> AsmState {
    AsmState { toks: toks_view(toks@), stack: stack_view(stack@), warns: warns_view(warns@) }
}

proof fn lemma_fold_concat(s: AsmState, a: Seq<(char, int)>, b: Seq<(char, int)>)
    ensures
        asm_fold(s, a + b) == match asm_fold(s, a) {
            Ok(m) => asm_fold(m, b),
            Err(f) => Err(f),
        },
    decreases a.len(),
{
    if a.len() == 0 {
        assert(a + b =~= b);
    } else {
        assert((a + b)[0] == a[0]);
        match asm_step(s, a[0]) {
            Ok(s2) => {
                assert((a + b).drop_first() =~= a.drop_first() + b);
                lemma_fold_concat(s2, a.drop_first(), b);
            },
            Err(e) => {},
        }
    }
}

/// Scans the source lines in order and assembles the instruction stream,
/// resolving each loop bracket pair into mutual jump targets. Returns the
/// stream (or the structural error that stopped assembly) together with one
/// warning per unrecognized character seen before the stopping point.
#[verifier::rlimit(100)]
pub fn tokenize_lines(lines: Vec<String>) -> (r: (Result<Vec<Token>, AsmError>, Vec<Warning>))
    ensures
        asm_result_view(r.0) == spec_assemble(lines_view(lines@)).result,
        warns_view(r.1@) == spec_assemble(lines_view(lines@)).warnings,
{
    let ghost ls = lines_view(lines@);
    let mut toks: Vec<Token> = Vec::new();
    let mut stack: Vec<usize> = Vec::new();
    let mut warns: Vec<Warning> = Vec::new();
    proof {
        lemma_lines_view(lines@);
        assert(asm_st(toks, stack, warns) == init_asm_state());
        assert(ls.skip(0) =~= ls);
    }
    let mut i: usize = 0;
    while i < lines.len()
        invariant
            0 <= i <= lines.len(),
            ls == lines_view(lines@),
            ls.len() == lines.len(),
            forall|k: int| 0 <= k < stack@.len() ==> (#[trigger] stack@[k]) < toks.len(),
            asm_complete(
                asm_st(toks, stack, warns),
                src_items_from(ls.skip(i as int), i as int + 1),
            ) == spec_assemble(ls),
        decreases lines.len() - i,
    {
        let v = code_chars(lines[i].as_str());
        let ghost items_i = line_items(ls[i as int], i as int + 1);
        proof {
            lemma_lines_view(lines@);
            let rest = ls.skip(i as int);
            assert(rest[0] == ls[i as int]);
            assert(rest.drop_first() =~= ls.skip(i as int + 1));
            assert(src_items_from(rest, i as int + 1) == items_i + src_items_from(
                ls.skip(i as int + 1),
                i as int + 2,
            ));
            assert(v@ == code_prefix(ls[i as int]));
            lemma_pair_line(code_prefix(ls[i as int]), i as int + 1);
            assert(items_i.len() == v@.len());
            assert(forall|k: int| 0 <= k < items_i.len() ==> items_i[k] == (v@[k], i as int + 1));
            assert(items_i.skip(0) =~= items_i);
            assert(items_i.skip(0) + src_items_from(ls.skip(i as int + 1), i as int + 2)
                =~= src_items_from(rest, i as int + 1));
        }
        let mut j: usize = 0;
        while j < v.len()
            invariant
                0 <= j <= v.len(),
                ls == lines_view(lines@),
                ls.len() == lines.len(),
                i < lines.len(),
                items_i == line_items(ls[i as int], i as int + 1),
                items_i.len() == v.len(),
                forall|k: int| 0 <= k < items_i.len() ==> items_i[k] == (v@[k], i as int + 1),
                forall|k: int| 0 <= k < stack@.len() ==> (#[trigger] stack@[k]) < toks.len(),
                asm_complete(
                    asm_st(toks, stack, warns),
                    items_i.skip(j as int) + src_items_from(ls.skip(i as int + 1), i as int + 2),
                ) == spec_assemble(ls),
            decreases v.len() - j,
        {
            let c = v[j];
            let ghost it = items_i[j as int];
            let ghost st0 = asm_st(toks, stack, warns);
            let ghost ot = toks@;
            let ghost ost = stack@;
            let ghost ow = warns@;
            let ghost rem = items_i.skip(j as int) + src_items_from(
                ls.skip(i as int + 1),
                i as int + 2,
            );
            proof {
                lemma_toks_view(ot);
                lemma_stack_view(ost);
                assert(rem[0] == it);
                assert(it == (c, i as int + 1));
                assert(rem.drop_first() =~= items_i.skip(j as int + 1) + src_items_from(
                    ls.skip(i as int + 1),
                    i as int + 2,
                ));
            }
            if c == '[' {
                let t = Token { opcode: '[', jump_addr: None, line: i + 1 };
                toks.push(t);
                stack.push(toks.len() - 1);
                proof {
                    let st1 = asm_st(toks, stack, warns);
                    lemma_toks_view_push(ot, t);
                    lemma_stack_view_push(ost, ot.len() as usize);
                    assert(st1.toks == st0.toks.push(
                        TokenV { opcode: '[', jump_addr: None, line: i as int + 1 },
                    ));
                    assert(st1.stack == st0.stack.push(st0.toks.len() as int));
                    assert(asm_step(st0, it) == Ok::<AsmState, AsmErrorV>(st1));
                    assert forall|k: int| 0 <= k < stack@.len() implies (#[trigger] stack@[k])
                        < toks.len() by {
                        assert(stack@[k] == ost.push(ot.len() as usize)[k]);
                    }
                }
            } else if c == ']' {
                let popped = stack.pop();
                match popped {
                    Some(open) => {
                        let close = toks.len();
                        let old_op = toks[open].opcode;
                        let old_ln = toks[open].line;
                        let nt = Token { opcode: old_op, jump_addr: Some(close), line: old_ln };
                        let ct = Token { opcode: ']', jump_addr: Some(open), line: i + 1 };
                        toks[open] = nt;
                        toks.push(ct);
                        proof {
                            let st1 = asm_st(toks, stack, warns);
                            lemma_stack_view_drop_last(ost);
                            assert(st0.stack.len() > 0);
                            assert(st0.stack.last() == open as int);
                            assert(st1.stack == st0.stack.drop_last());
                            assert(st0.toks[open as int].opcode == old_op);
                            assert(st0.toks[open as int].line == old_ln as int);
                            lemma_toks_view_update(ot, open as int, nt);
                            lemma_toks_view_push(ot.update(open as int, nt), ct);
                            assert(toks@ == ot.update(open as int, nt).push(ct));
                            assert(st1.toks == st0.toks.update(
                                open as int,
                                TokenV {
                                    opcode: old_op,
                                    jump_addr: Some(close as int),
                                    line: old_ln as int,
                                },
                            ).push(
                                TokenV {
                                    opcode: ']',
                                    jump_addr: Some(open as int),
                                    line: i as int + 1,
                                },
                            ));
                            assert(asm_step(st0, it) == Ok::<AsmState, AsmErrorV>(st1));
                            assert forall|k: int| 0 <= k < stack@.len() implies (
                            #[trigger] stack@[k]) < toks.len() by {
                                assert(stack@[k] == ost.subrange(0, ost.len() - 1)[k]);
                            }
                        }
                    },
                    None => {
                        proof {
                            assert(st0.stack.len() == 0);
                            assert(asm_step(st0, it) == Err::<AsmState, AsmErrorV>(
                                AsmErrorV { kind: AsmErrorKind::UnmatchedClose, line: i as int + 1 },
                            ));
                        }
                        return (
                            Err(AsmError { kind: AsmErrorKind::UnmatchedClose, line: i + 1 }),
                            warns,
                        );
                    },
                }
            } else if c == '<' || c == '>' || c == '+' || c == '-' || c == ',' || c == '.' {
                let t = Token { opcode: c, jump_addr: None, line: i + 1 };
                toks.push(t);
                proof {
                    let st1 = asm_st(toks, stack, warns);
                    lemma_toks_view_push(ot, t);
                    assert(st1.toks == st0.toks.push(
                        TokenV { opcode: c, jump_addr: None, line: i as int + 1 },
                    ));
                    assert(st1.stack == st0.stack);
                    assert(asm_step(st0, it) == Ok::<AsmState, AsmErrorV>(st1));
                }
            } else if char_is_whitespace(c) {
                proof {
                    assert(asm_step(st0, it) == Ok::<AsmState, AsmErrorV>(st0));
                }
            } else {
                let w = Warning { line: i + 1, ch: c };
                warns.push(w);
                proof {
                    let st1 = asm_st(toks, stack, warns);
                    lemma_warns_view_push(ow, w);
                    assert(st1.warns == st0.warns.push((i as int + 1, c)));
                    assert(st1.toks == st0.toks);
                    assert(st1.stack == st0.stack);
                    assert(asm_step(st0, it) == Ok::<AsmState, AsmErrorV>(st1));
                }
            }
            j = j + 1;
        }
        proof {
            assert(items_i.skip(v.len() as int) =~= Seq::<(char, int)>::empty());
            assert(items_i.skip(v.len() as int) + src_items_from(ls.skip(i as int + 1), i as int + 2)
                =~= src_items_from(ls.skip(i as int + 1), i as int + 2));
        }
        i = i + 1;
    }
    proof {
        assert(ls.skip(i as int) =~= Seq::<Seq<char>>::empty());
        assert(asm_fold(asm_st(toks, stack, warns), src_items_from(ls.skip(i as int), i as int + 1))
            == Ok::<AsmState, AsmFail>(asm_st(toks, stack, warns)));
    }
    if stack.len() > 0 {
        let open = stack[stack.len() - 1];
        let line = toks[open].line;
        proof {
            let st = asm_st(toks, stack, warns);
            lemma_stack_view(stack@);
            lemma_toks_view(toks@);
            assert(st.stack.last() == open as int);
            assert(st.toks[open as int].line == line as int);
        }
        return (Err(AsmError { kind: AsmErrorKind::UnmatchedOpen, line }), warns);
    }
    (Ok(toks), warns)
}

/// A resolved loop-open: its target is a later close that points back.
pub open spec fn open_matched(toks: Seq<TokenV>, i: int) -> bool {
    toks[i].jump_addr matches Some(j) && i < j < toks.len() && toks[j].opcode == ']'
        && toks[j].jump_addr == Some(i)
}

/// A resolved loop-close: its target is an earlier open that points back.
pub open spec fn close_matched(toks: Seq<TokenV>, i: int) -> bool {
    toks[i].jump_addr matches Some(j) && 0 <= j < i && toks[j].opcode == '[' && toks[j].jump_addr
        == Some(i)
}

/// Symmetry of one instruction's bracket resolution.
pub open spec fn bracket_symmetric(toks: Seq<TokenV>, i: int) -> bool {
    &&& toks[i].opcode == '[' ==> open_matched(toks, i)
    &&& toks[i].opcode == ']' ==> close_matched(toks, i)
}

/// Invariant of the assembly state: the scope stack holds strictly
/// increasing indices of still-open `[` instructions, and every
/// instruction off the stack is either resolved mutually or carries no
/// target at all.
pub open spec fn asm_inv(s: AsmState) -> bool {
    &&& forall|a: int, b: int| 0 <= a < b < s.stack.len() ==> s.stack[a] < s.stack[b]
    &&& forall|a: int| 0 <= a < s.stack.len() ==> 0 <= #[trigger] s.stack[a] < s.toks.len()
    &&& forall|a: int|
        0 <= a < s.stack.len() ==> s.toks[#[trigger] s.stack[a]].opcode == '[' && s.toks[s.stack[a]].jump_addr is None
    &&& forall|i: int| 0 <= i < s.toks.len() ==> #[trigger] tok_resolved(s, i)
}

/// Resolution status of the instruction at index `i`.
pub open spec fn tok_resolved(s: AsmState, i: int) -> bool {
    if s.toks[i].opcode == '[' {
        s.stack.contains(i) || open_matched(s.toks, i)
    } else if s.toks[i].opcode == ']' {
        close_matched(s.toks, i)
    } else {
        s.toks[i].jump_addr is None
    }
}

proof fn lemma_asm_step_inv(s: AsmState, it: (char, int))
    requires
        asm_inv(s),
    ensures
        asm_step(s, it) matches Ok(s2) ==> asm_inv(s2),
{
    match asm_step(s, it) {
        Ok(s2) => {
            if it.0 == '[' {
                let n = s.toks.len() as int;
                let t = TokenV { opcode: '[', jump_addr: None, line: it.1 };
                assert(s2.toks == s.toks.push(t));
                assert(s2.stack == s.stack.push(n));
                assert(forall|k: int| 0 <= k < n ==> s.toks.push(t)[k] == s.toks[k]);
                assert(s.toks.push(t)[n] == t);
                assert(forall|k: int| 0 <= k < s.stack.len() ==> s.stack.push(n)[k] == s.stack[k]);
                assert(s.stack.push(n)[s.stack.len() as int] == n);
                assert forall|i: int| 0 <= i < s2.toks.len() implies #[trigger] tok_resolved(
                    s2,
                    i,
                ) by {
                    if i < n {
                        assert(tok_resolved(s, i));
                        if s.toks[i].opcode == '[' && s.stack.contains(i) {
                            let a = choose|a: int| 0 <= a < s.stack.len() && s.stack[a] == i;
                            assert(s2.stack[a] == i);
                            assert(s2.stack.contains(i));
                        }
                    } else {
                        assert(s2.toks[i] == t);
                        assert(s2.stack[s.stack.len() as int] == n);
                        assert(s2.stack.contains(n));
                    }
                }
            } else if it.0 == ']' {
                let open = s.stack.last();
                let close = s.toks.len() as int;
                let ot = TokenV {
                    opcode: s.toks[open].opcode,
                    jump_addr: Some(close),
                    line: s.toks[open].line,
                };
                let ct = TokenV { opcode: ']', jump_addr: Some(open), line: it.1 };
                let mid = s.toks.update(open, ot);
                assert(s2.toks == mid.push(ct));
                assert(s2.stack == s.stack.drop_last());
                assert(s.toks[open].opcode == '[');
                assert(forall|k: int| 0 <= k < close && k != open ==> mid[k] == s.toks[k]);
                assert(mid[open] == ot);
                assert(forall|k: int| 0 <= k < close ==> mid.push(ct)[k] == mid[k]);
                assert(mid.push(ct)[close] == ct);
                assert(forall|k: int|
                    0 <= k < s.stack.len() - 1 ==> s.stack.drop_last()[k] == s.stack[k]);
                // the popped index is above every index left on the stack
                assert(forall|a: int|
                    0 <= a < s.stack.len() - 1 ==> s.stack[a] < open);
                assert forall|i: int| 0 <= i < s2.toks.len() implies #[trigger] tok_resolved(
                    s2,
                    i,
                ) by {
                    if i == open {
                        assert(s2.toks[i].opcode == '[');
                        assert(open_matched(s2.toks, i));
                        assert(tok_resolved(s2, i));
                    } else if i == close {
                        assert(s2.toks[i] == ct);
                        assert(close_matched(s2.toks, i));
                    } else {
                        assert(tok_resolved(s, i));
                        assert(s2.toks[i] == s.toks[i]);
                        if s.toks[i].opcode == '[' {
                            if s.stack.contains(i) {
                                let a = choose|a: int|
                                    0 <= a < s.stack.len() && s.stack[a] == i;
                                assert(a < s.stack.len() - 1);
                                assert(s2.stack[a] == i);
                                assert(s2.stack.contains(i));
                            } else {
                                let j = s.toks[i].jump_addr.unwrap();
                                assert(open_matched(s.toks, i));
                                assert(s.toks[j].jump_addr == Some(i));
                                assert(j != open);
                                assert(s2.toks[j] == s.toks[j]);
                                assert(open_matched(s2.toks, i));
                            }
                        } else if s.toks[i].opcode == ']' {
                            let j = s.toks[i].jump_addr.unwrap();
                            assert(close_matched(s.toks, i));
                            assert(s.toks[j].jump_addr == Some(i));
                            assert(j != open);
                            assert(s2.toks[j] == s.toks[j]);
                            assert(close_matched(s2.toks, i));
                        }
                    }
                }
            } else if opcode_char(it.0) {
                let n = s.toks.len() as int;
                let t = TokenV { opcode: it.0, jump_addr: None, line: it.1 };
                assert(s2.toks == s.toks.push(t));
                assert(forall|k: int| 0 <= k < n ==> s.toks.push(t)[k] == s.toks[k]);
                assert(s.toks.push(t)[n] == t);
                assert forall|i: int| 0 <= i < s2.toks.len() implies #[trigger] tok_resolved(
                    s2,
                    i,
                ) by {
                    if i < n {
                        assert(tok_resolved(s, i));
                    } else {
                        assert(s2.toks[i] == t);
                    }
                }
            } else {
                assert(s2.toks == s.toks && s2.stack == s.stack);
                assert forall|i: int| 0 <= i < s2.toks.len() implies #[trigger] tok_resolved(
                    s2,
                    i,
                ) by {
                    assert(tok_resolved(s, i));
                }
            }
        },
        Err(_) => {},
    }
}

proof fn lemma_asm_fold_inv(s: AsmState, items: Seq<(char, int)>)
    requires
        asm_inv(s),
    ensures
        asm_fold(s, items) matches Ok(s2) ==> asm_inv(s2),
    decreases items.len(),
{
    if items.len() > 0 {
        lemma_asm_step_inv(s, items[0]);
        match asm_step(s, items[0]) {
            Ok(s2) => {
                lemma_asm_fold_inv(s2, items.drop_first());
            },
            Err(_) => {},
        }
    }
}

/// Law: in a successfully assembled stream, every loop-open's jump target
/// strictly exceeds its own index and names its matching close, and that
/// close's jump target names the open back (symmetry); every non-bracket
/// instruction carries no target.
pub proof fn lemma_jump_symmetry(lines: Seq<Seq<char>>)
    requires
        spec_assemble(lines).result is Ok,
    ensures
        forall|i: int|
            0 <= i < spec_assemble(lines).result->Ok_0.len() ==> #[trigger] bracket_symmetric(
                spec_assemble(lines).result->Ok_0,
                i,
            ),
{
    let items = src_items(lines);
    let init = init_asm_state();
    assert(asm_inv(init));
    lemma_asm_fold_inv(init, items);
    let folded = asm_fold(init, items);
    match folded {
        Ok(s2) => {
            assert(spec_assemble(lines) == asm_finish(s2));
            assert(s2.stack.len() == 0);
            let toks = s2.toks;
            assert forall|i: int| 0 <= i < toks.len() implies #[trigger] bracket_symmetric(
                toks,
                i,
            ) by {
                assert(tok_resolved(s2, i));
                if toks[i].opcode == '[' {
                    assert(!s2.stack.contains(i));
                }
            }
        },
        Err(_) => {
            assert(false);
        },
    }
}

/// Law: a successfully assembled stream is well-formed for the executor:
/// every bracket instruction carries an in-range jump target.
pub proof fn lemma_assembled_wf(lines: Seq<Seq<char>>)
    requires
        spec_assemble(lines).result is Ok,
    ensures
        crate::token::prog_wf(spec_assemble(lines).result->Ok_0),
{
    lemma_jump_symmetry(lines);
    let toks = spec_assemble(lines).result->Ok_0;
    assert forall|i: int|
        0 <= i < toks.len() && (toks[i].opcode == '[' || toks[i].opcode == ']') implies ((
    #[trigger] toks[i].jump_addr) matches Some(j) && 0 <= j < toks.len()) by {
        assert(bracket_symmetric(toks, i));
    }
}

/// Law: assembly is a function of the source text alone: the same lines
/// assemble to structurally identical outcomes.
pub proof fn lemma_assembly_deterministic(lines1: Seq<Seq<char>>, lines2: Seq<Seq<char>>)
    requires
        lines1 == lines2,
    ensures
        spec_assemble(lines1) == spec_assemble(lines2),
{
}

/// Number of loop-open characters among the scanned items.
pub open spec fn opens(items: Seq<(char, int)>) -> int
    decreases items.len(),
{
    if items.len() == 0 {
        0
    } else {
        (if items[0].0 == '[' {
            1int
        } else {
            0int
        }) + opens(items.drop_first())
    }
}

/// Number of loop-close characters among the scanned items.
pub open spec fn closes(items: Seq<(char, int)>) -> int
    decreases items.len(),
{
    if items.len() == 0 {
        0
    } else {
        (if items[0].0 == ']' {
            1int
        } else {
            0int
        }) + closes(items.drop_first())
    }
}

proof fn lemma_count_take_shift(items: Seq<(char, int)>, j: int)
    requires
        1 <= j <= items.len(),
    ensures
        opens(items.take(j)) == (if items[0].0 == '[' {
            1int
        } else {
            0int
        }) + opens(items.drop_first().take(j - 1)),
        closes(items.take(j)) == (if items[0].0 == ']' {
            1int
        } else {
            0int
        }) + closes(items.drop_first().take(j - 1)),
{
    let p = items.take(j);
    assert(p.len() == j);
    assert(p[0] == items[0]);
    assert(p.drop_first() =~= items.drop_first().take(j - 1));
}

proof fn lemma_fold_unmatched_close(s: AsmState, items: Seq<(char, int)>, k: int)
    requires
        0 <= k < items.len(),
        items[k].0 == ']',
        closes(items.take(k)) - opens(items.take(k)) == s.stack.len(),
        forall|j: int|
            0 <= j < k && items[j].0 == ']' ==> closes(items.take(j)) - opens(items.take(j))
                < s.stack.len(),
    ensures
        asm_fold(s, items) matches Err(f) && f.err == (AsmErrorV {
            kind: AsmErrorKind::UnmatchedClose,
            line: items[k].1,
        }),
    decreases k,
{
    assert(items.take(0) =~= Seq::<(char, int)>::empty());
    if k == 0 {
        assert(s.stack.len() == 0);
        assert(asm_step(s, items[0]) == Err::<AsmState, AsmErrorV>(
            AsmErrorV { kind: AsmErrorKind::UnmatchedClose, line: items[0].1 },
        ));
    } else {
        let it = items[0];
        if it.0 == ']' {
            assert(closes(items.take(0)) - opens(items.take(0)) < s.stack.len());
        }
        match asm_step(s, it) {
            Ok(s2) => {
                let o0: int = if it.0 == '[' {
                    1int
                } else {
                    0int
                };
                let c0: int = if it.0 == ']' {
                    1int
                } else {
                    0int
                };
                assert(s2.stack.len() == s.stack.len() + o0 - c0);
                let rest = items.drop_first();
                lemma_count_take_shift(items, k);
                assert(rest[k - 1] == items[k]);
                assert(closes(rest.take(k - 1)) - opens(rest.take(k - 1)) == s2.stack.len());
                assert forall|j: int|
                    0 <= j < k - 1 && rest[j].0 == ']' implies closes(rest.take(j)) - opens(
                    rest.take(j),
                ) < s2.stack.len() by {
                    lemma_count_take_shift(items, j + 1);
                    assert(items[j + 1] == rest[j]);
                    assert(closes(items.take(j + 1)) - opens(items.take(j + 1)) < s.stack.len());
                }
                lemma_fold_unmatched_close(s2, rest, k - 1);
            },
            Err(_) => {
                assert(false);
            },
        }
    }
}

proof fn lemma_fold_no_fail(s: AsmState, items: Seq<(char, int)>)
    requires
        forall|j: int|
            0 <= j < items.len() && items[j].0 == ']' ==> closes(items.take(j)) - opens(
                items.take(j),
            ) < s.stack.len(),
    ensures
        asm_fold(s, items) matches Ok(s2) && s2.stack.len() == s.stack.len() + opens(items)
            - closes(items),
    decreases items.len(),
{
    assert(items.take(0) =~= Seq::<(char, int)>::empty());
    if items.len() > 0 {
        let it = items[0];
        if it.0 == ']' {
            assert(closes(items.take(0)) - opens(items.take(0)) < s.stack.len());
        }
        match asm_step(s, it) {
            Ok(s2) => {
                let o0: int = if it.0 == '[' {
                    1int
                } else {
                    0int
                };
                let c0: int = if it.0 == ']' {
                    1int
                } else {
                    0int
                };
                assert(s2.stack.len() == s.stack.len() + o0 - c0);
                let rest = items.drop_first();
                assert forall|j: int|
                    0 <= j < rest.len() && rest[j].0 == ']' implies closes(rest.take(j)) - opens(
                    rest.take(j),
                ) < s2.stack.len() by {
                    lemma_count_take_shift(items, j + 1);
                    assert(items[j + 1] == rest[j]);
                    assert(closes(items.take(j + 1)) - opens(items.take(j + 1)) < s.stack.len());
                }
                lemma_fold_no_fail(s2, rest);
            },
            Err(_) => {
                assert(false);
            },
        }
    }
}

/// Law: a close bracket arriving when no loop is open — the first scanned
/// position where the closes catch up with the opens — fails assembly with
/// an unmatched-close error naming that bracket's line.
pub proof fn lemma_unmatched_close(lines: Seq<Seq<char>>, k: int)
    requires
        0 <= k < src_items(lines).len(),
        src_items(lines)[k].0 == ']',
        closes(src_items(lines).take(k)) == opens(src_items(lines).take(k)),
        forall|j: int|
            0 <= j < k && src_items(lines)[j].0 == ']' ==> closes(src_items(lines).take(j))
                < opens(src_items(lines).take(j)),
    ensures
        spec_assemble(lines).result == Err::<Seq<TokenV>, AsmErrorV>(
            AsmErrorV { kind: AsmErrorKind::UnmatchedClose, line: src_items(lines)[k].1 },
        ),
{
    lemma_fold_unmatched_close(init_asm_state(), src_items(lines), k);
}

/// Law: when no close bracket ever arrives early but the opens outnumber
/// the closes, assembly fails at end of input with an unmatched-open error.
pub proof fn lemma_unmatched_open(lines: Seq<Seq<char>>)
    requires
        forall|j: int|
            0 <= j < src_items(lines).len() && src_items(lines)[j].0 == ']' ==> closes(
                src_items(lines).take(j),
            ) < opens(src_items(lines).take(j)),
        opens(src_items(lines)) > closes(src_items(lines)),
    ensures
        spec_assemble(lines).result matches Err(e) && e.kind == AsmErrorKind::UnmatchedOpen,
{
    lemma_fold_no_fail(init_asm_state(), src_items(lines));
}

/// Law: a program whose brackets balance — no prefix with more closes than
/// opens, equal totals — assembles successfully.
pub proof fn lemma_balanced_ok(lines: Seq<Seq<char>>)
    requires
        forall|j: int|
            0 <= j < src_items(lines).len() && src_items(lines)[j].0 == ']' ==> closes(
                src_items(lines).take(j),
            ) < opens(src_items(lines).take(j)),
        opens(src_items(lines)) == closes(src_items(lines)),
    ensures
        spec_assemble(lines).result is Ok,
{
    lemma_fold_no_fail(init_asm_state(), src_items(lines));
}

} // verus!
