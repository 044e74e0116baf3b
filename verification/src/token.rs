//! The instruction data model: one `Token` per emitted unit of executable
//! work, plus its mathematical view and the well-formedness predicate that
//! the executor relies on.

use vstd::prelude::*;

verus! {

/// One executable instruction. `opcode` is the source character that named
/// it, `jump_addr` is the index of the matching bracket (present exactly for
/// resolved `[` and `]` instructions), and `line` is the 1-based source line
/// it came from, kept for diagnostics.
#[derive(Clone, Copy, PartialEq, Eq, Structural, Debug)]
pub struct Token {
    pub opcode: char,
    pub jump_addr: Option<usize>,
    pub line: usize,
}

/// Mathematical view of a `Token`, with unbounded integers for indices.
pub ghost struct TokenV {
    pub opcode: char,
    pub jump_addr: Option<int>,
    pub line: int,
}

impl View for Token {
    type V = TokenV;

    open spec fn view(&self) -> TokenV {
        TokenV {
            opcode: self.opcode,
            jump_addr: match self.jump_addr {
                Some(j) => Some(j as int),
                None => None,
            },
            line: self.line as int,
        }
    }
}

impl Token {
    /// A fresh, unresolved instruction for the given opcode character.
    pub fn inst(opcode: char) -> (t: Self)
        ensures
            t@ == (TokenV { opcode, jump_addr: None, line: 0 }),
    {
        Self { opcode, jump_addr: None, line: 0 }
    }
}

/// The eight characters that name instructions.
pub open spec fn opcode_char(c: char) -> bool {
    c == '<' || c == '>' || c == '+' || c == '-' || c == ',' || c == '.' || c == '[' || c == ']'
}

/// The characters that start a rest-of-line comment.
pub open spec fn comment_char(c: char) -> bool {
    c == '#' || c == '/' || c == ';'
}

/// The views of a sequence of tokens, in order.
pub open spec fn toks_view(s: Seq<Token>) -> Seq<TokenV>
    decreases s.len(),
{
    if s.len() == 0 {
        Seq::empty()
    } else {
        toks_view(s.drop_last()).push(s.last()@)
    }
}

/// `toks_view` is element-wise `view`.
pub proof fn lemma_toks_view(s: Seq<Token>)
    ensures
        toks_view(s).len() == s.len(),
        forall|k: int| 0 <= k < s.len() ==> toks_view(s)[k] == s[k]@,
    decreases s.len(),
{
    if s.len() > 0 {
        lemma_toks_view(s.drop_last());
        let prefix = toks_view(s.drop_last());
        let x = s.last()@;
        assert(toks_view(s) == prefix.push(x));
        assert forall|k: int| 0 <= k < s.len() implies toks_view(s)[k] == s[k]@ by {
            if k < s.len() - 1 {
                assert(prefix.push(x)[k] == prefix[k]);
                assert(s.drop_last()[k] == s[k]);
            } else {
                assert(prefix.push(x)[k] == x);
            }
        }
    }
}

/// Pushing a token extends the view by that token's view.
pub proof fn lemma_toks_view_push(s: Seq<Token>, t: Token)
    ensures
        toks_view(s.push(t)) == toks_view(s).push(t@),
{
    let e = s.push(t);
    assert(e.drop_last() =~= s);
    assert(e.last() == t);
    assert(toks_view(e) == toks_view(e.drop_last()).push(e.last()@));
}

/// Updating one token updates exactly that position of the view.
pub proof fn lemma_toks_view_update(s: Seq<Token>, i: int, t: Token)
    requires
        0 <= i < s.len(),
    ensures
        toks_view(s.update(i, t)) == toks_view(s).update(i, t@),
    decreases s.len(),
{
    lemma_toks_view(s);
    lemma_toks_view(s.update(i, t));
    assert(s.update(i, t).len() == s.len());
    assert forall|k: int| 0 <= k < s.len() implies toks_view(s.update(i, t))[k] == toks_view(
        s,
    ).update(i, t@)[k] by {
        if k == i {
            assert(s.update(i, t)[k] == t);
            assert(toks_view(s).update(i, t@)[k] == t@);
        } else {
            assert(s.update(i, t)[k] == s[k]);
            assert(toks_view(s).update(i, t@)[k] == toks_view(s)[k]);
        }
    }
    assert(toks_view(s.update(i, t)) =~= toks_view(s).update(i, t@));
}

/// A program the executor can run without consulting anything outside the
/// stream: every bracket instruction carries an in-range jump target.
pub open spec fn prog_wf(prog: Seq<TokenV>) -> bool {
    forall|i: int|
        0 <= i < prog.len() && (prog[i].opcode == '[' || prog[i].opcode == ']')
            ==> ((#[trigger] prog[i].jump_addr) matches Some(j) && 0 <= j < prog.len())
}

/// Runtime check of `prog_wf`, for callers that obtained an instruction
/// stream from somewhere other than the assembler.
pub fn check_program(prog: &Vec<Token>) -> (b: bool)
    ensures
        b == prog_wf(toks_view(prog@)),
{
    let ghost pv = toks_view(prog@);
    proof {
        lemma_toks_view(prog@);
    }
    let mut i: usize = 0;
    while i < prog.len()
        invariant
            0 <= i <= prog.len(),
            pv == toks_view(prog@),
            pv.len() == prog.len(),
            forall|k: int|
                0 <= k < i && (pv[k].opcode == '[' || pv[k].opcode == ']')
                    ==> ((#[trigger] pv[k].jump_addr) matches Some(j) && 0 <= j < pv.len()),
        decreases prog.len() - i,
    {
        let t = &prog[i];
        proof {
            lemma_toks_view(prog@);
        }
        assert(t@ == pv[i as int]);
        if t.opcode == '[' || t.opcode == ']' {
            match t.jump_addr {
                Some(j) => {
                    if j >= prog.len() {
                        proof {
                            assert(pv[i as int].jump_addr == Some(j as int));
                            assert(!prog_wf(pv));
                        }
                        return false;
                    }
                },
                None => {
                    proof {
                        assert(pv[i as int].jump_addr is None);
                        assert(!prog_wf(pv));
                    }
                    return false;
                },
            }
        }
        i = i + 1;
    }
    true
}

} // verus!
