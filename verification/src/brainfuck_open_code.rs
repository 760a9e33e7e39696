//! Tokens of the language, the filter that finds them in source bytes, and a token program
//! together with the table of its loop jumps.

use crate::error::UnbalancedLoopError;
use crate::nesting::{
    balanced, depth, has_unmatched_closer, has_unterminated_opener, is_pair,
    lemma_closer_has_opener, lemma_opener_has_closer, lemma_partner, lemma_trichotomy, linked,
    never_negative, open_until, partner, pending, Bracket,
};
use std::collections::HashMap;
use vstd::prelude::*;

verus! {

broadcast use vstd::std_specs::hash::group_hash_axioms;

/// One of the eight instructions of the language.
#[derive(Debug, PartialEq, Eq, Clone, Copy, Structural)]
pub enum OpenCode {
    /// `>`: move the pointer one cell to the right.
    SHR,
    /// `<`: move the pointer one cell to the left.
    SHL,
    /// `+`: add one to the current cell.
    ADD,
    /// `-`: subtract one from the current cell.
    SUB,
    /// `.`: write the current cell.
    PUTCHAR,
    /// `,`: read a byte into the current cell.
    GETCHAR,
    /// `[`: skip the loop if the current cell is zero.
    LB,
    /// `]`: repeat the loop unless the current cell is zero.
    RB,
}

impl OpenCode {
    /// The source byte that stands for this instruction.
    pub open spec fn byte(self) -> u8 {
        match self {
            OpenCode::SHR => 0x3Eu8,
            OpenCode::SHL => 0x3Cu8,
            OpenCode::ADD => 0x2Bu8,
            OpenCode::SUB => 0x2Du8,
            OpenCode::PUTCHAR => 0x2Eu8,
            OpenCode::GETCHAR => 0x2Cu8,
            OpenCode::LB => 0x5Bu8,
            OpenCode::RB => 0x5Du8,
        }
    }

    /// The instruction that a source byte stands for, if it stands for one.
    pub open spec fn decode(byte: u8) -> Option<OpenCode> {
        if byte == 0x3Eu8 {
            Some(OpenCode::SHR)
        } else if byte == 0x3Cu8 {
            Some(OpenCode::SHL)
        } else if byte == 0x2Bu8 {
            Some(OpenCode::ADD)
        } else if byte == 0x2Du8 {
            Some(OpenCode::SUB)
        } else if byte == 0x2Eu8 {
            Some(OpenCode::PUTCHAR)
        } else if byte == 0x2Cu8 {
            Some(OpenCode::GETCHAR)
        } else if byte == 0x5Bu8 {
            Some(OpenCode::LB)
        } else if byte == 0x5Du8 {
            Some(OpenCode::RB)
        } else {
            None
        }
    }

    /// The part this instruction plays in loop nesting.
    pub open spec fn bracket(self) -> Bracket {
        match self {
            OpenCode::LB => Bracket::Open,
            OpenCode::RB => Bracket::Close,
            _ => Bracket::Plain,
        }
    }

    /// The instruction is one of those that fusion combines into counted nodes.
    pub open spec fn fusable(self) -> bool {
        self == OpenCode::SHR || self == OpenCode::SHL || self == OpenCode::ADD || self
            == OpenCode::SUB
    }

    /// The source byte of this instruction.
    pub fn code(&self) -> (byte: u8)
        ensures
            byte == self.byte(),
            OpenCode::decode(byte) == Some(*self),
    {
        match self {
            OpenCode::SHR => 0x3Eu8,
            OpenCode::SHL => 0x3Cu8,
            OpenCode::ADD => 0x2Bu8,
            OpenCode::SUB => 0x2Du8,
            OpenCode::PUTCHAR => 0x2Eu8,
            OpenCode::GETCHAR => 0x2Cu8,
            OpenCode::LB => 0x5Bu8,
            OpenCode::RB => 0x5Du8,
        }
    }

    /// Reads one source byte: an instruction, or `None` for a byte of commentary.
    pub fn parse(byte: u8) -> (token: Option<OpenCode>)
        ensures
            token == OpenCode::decode(byte),
    {
        if byte == 0x3Eu8 {
            Some(OpenCode::SHR)
        } else if byte == 0x3Cu8 {
            Some(OpenCode::SHL)
        } else if byte == 0x2Bu8 {
            Some(OpenCode::ADD)
        } else if byte == 0x2Du8 {
            Some(OpenCode::SUB)
        } else if byte == 0x2Eu8 {
            Some(OpenCode::PUTCHAR)
        } else if byte == 0x2Cu8 {
            Some(OpenCode::GETCHAR)
        } else if byte == 0x5Bu8 {
            Some(OpenCode::LB)
        } else if byte == 0x5Du8 {
            Some(OpenCode::RB)
        } else {
            None
        }
    }

    /// The instruction that an instruction byte stands for.
    pub fn from(u: u8) -> (token: OpenCode)
        requires
            OpenCode::decode(u) is Some,
        ensures
            OpenCode::decode(u) == Some(token),
            token.byte() == u,
    {
        match OpenCode::parse(u) {
            Some(token) => token,
            None => vstd::pervasive::unreached(),
        }
    }
}

/// The reading of single bytes, as a function value.
pub open spec fn decoder() -> spec_fn(u8) -> Option<OpenCode> {
    |byte: u8| OpenCode::decode(byte)
}

/// The instructions found in `bytes`, in source order; every other byte is dropped.
pub open spec fn tokens_of(bytes: Seq<u8>) -> Seq<OpenCode> {
    bytes.filter_map(decoder())
}

/// The loop nesting structure of a token sequence.
pub open spec fn token_brackets(tokens: Seq<OpenCode>) -> Seq<Bracket> {
    tokens.map_values(|t: OpenCode| t.bracket())
}

/// The jump table of a token sequence: every `[` and `]` mapped to the other end of its loop.
pub open spec fn jump_table(tokens: Seq<OpenCode>) -> Map<usize, usize> {
    Map::new(
        |i: usize| i < tokens.len() && tokens[i as int].bracket() != Bracket::Plain,
        |i: usize| partner(token_brackets(tokens), i as int) as usize,
    )
}

/// In a balanced program the jump table sends each end of a loop to the other end, and
/// that end back.
pub proof fn lemma_jump_table_pairs(tokens: Seq<OpenCode>, i: usize)
    requires
        tokens.len() <= usize::MAX,
        balanced(token_brackets(tokens)),
        i < tokens.len(),
        tokens[i as int].bracket() != Bracket::Plain,
    ensures
        jump_table(tokens).contains_key(i),
        jump_table(tokens).contains_key(jump_table(tokens)[i]),
        jump_table(tokens)[jump_table(tokens)[i]] == i,
        linked(token_brackets(tokens), i as int, jump_table(tokens)[i] as int),
{
    let s = token_brackets(tokens);
    assert(s[i as int] == tokens[i as int].bracket());
    if s[i as int] == Bracket::Open {
        let close = lemma_opener_has_closer(s, i as int);
        lemma_partner(s, i as int, close);
        assert(s[close] == tokens[close].bracket());
    } else {
        let open = lemma_closer_has_opener(s, i as int);
        lemma_partner(s, open, i as int);
        assert(s[open] == tokens[open].bracket());
    }
}

/// Filters source bytes into tokens.
pub fn tokenize(data: &Vec<u8>) -> (tokens: Vec<OpenCode>)
    ensures
        tokens@ == tokens_of(data@),
{
    let mut tokens: Vec<OpenCode> = Vec::new();
    let mut i: usize = 0;
    while i < data.len()
        invariant
            i <= data.len(),
            tokens@ == tokens_of(data@.take(i as int)),
        decreases data.len() - i,
    {
        proof {
            data@.lemma_filter_map_take_succ(decoder(), i as int);
        }
        match OpenCode::parse(data[i]) {
            Some(token) => {
                tokens.push(token);
            },
            None => {},
        }
        i = i + 1;
        assert(tokens@ =~= tokens_of(data@.take(i as int)));
    }
    assert(data@.take(data.len() as int) =~= data@);
    tokens
}

/// A token program with the table of its loop jumps.
#[derive(Debug)]
pub struct BrainfuckCode {
    instrs: Vec<OpenCode>,
    jtable: HashMap<usize, usize>,
}

impl BrainfuckCode {
    /// The tokens of the program.
    pub closed spec fn tokens(&self) -> Seq<OpenCode> {
        self.instrs@
    }

    /// The jump table of the program.
    pub closed spec fn jumps(&self) -> Map<usize, usize> {
        self.jtable@
    }

    /// The loops of the program are balanced and the table maps each end of each loop to the
    /// other.
    #[verifier::type_invariant]
    pub open spec fn well_formed(&self) -> bool {
        &&& balanced(token_brackets(self.tokens()))
        &&& self.jumps() == jump_table(self.tokens())
    }

    /// Filters source bytes into tokens and builds their jump table. Fails where the loops
    /// are not balanced.
    pub fn from(data: Vec<u8>) -> (result: Result<BrainfuckCode, UnbalancedLoopError>)
        ensures
            result is Ok <==> balanced(token_brackets(tokens_of(data@))),
            result == Err::<BrainfuckCode, _>(UnbalancedLoopError::UnmatchedCloser)
                <==> has_unmatched_closer(token_brackets(tokens_of(data@))),
            result == Err::<BrainfuckCode, _>(UnbalancedLoopError::UnterminatedOpener)
                <==> has_unterminated_opener(token_brackets(tokens_of(data@))),
            result matches Ok(code) ==> code.tokens() == tokens_of(data@) && code.well_formed(),
    {
        let instrs = tokenize(&data);
        let ghost s = token_brackets(instrs@);
        proof {
            lemma_trichotomy(s);
        }
        let mut jstack: Vec<usize> = Vec::new();
        let mut jtable: HashMap<usize, usize> = HashMap::new();
        let mut i: usize = 0;
        while i < instrs.len()
            invariant
                i <= instrs.len(),
                instrs@ == tokens_of(data@),
                s == token_brackets(instrs@),
                forall|m: int| 0 <= m <= i ==> #[trigger] depth(s, m) >= 0,
                jstack.len() == depth(s, i as int),
                forall|d: int|
                    0 <= d < jstack.len() ==> open_until(s, #[trigger] jstack[d] as int, d, i as int),
                forall|a: usize|
                    #[trigger] jtable@.contains_key(a) <==> a < i && s[a as int] != Bracket::Plain
                        && !pending(s, jstack@, a as int),
                forall|a: usize|
                    #[trigger] jtable@.contains_key(a) ==> linked(s, a as int, jtable@[a] as int),
            decreases instrs.len() - i,
        {
            let token: OpenCode = instrs[i];
            let ghost stack = jstack@;
            let ghost table = jtable@;
            assert(s[i as int] == token.bracket());
            assert(depth(s, i + 1) == depth(s, i as int) + s[i as int].weight());
            match token {
                OpenCode::LB => {
                    jstack.push(i);
                    assert forall|d: int| 0 <= d < jstack.len() implies open_until(
                        s,
                        #[trigger] jstack[d] as int,
                        d,
                        i + 1,
                    ) by {
                        if d < stack.len() {
                            assert(open_until(s, stack[d] as int, d, i as int));
                        }
                    }
                    assert forall|a: usize| a < i implies (pending(s, jstack@, a as int)
                        <==> pending(s, stack, a as int)) by {
                        if s[a as int] == Bracket::Open && depth(s, a as int) == stack.len() {
                            assert(jstack@[depth(s, a as int)] == i);
                        }
                    }
                    assert(pending(s, jstack@, i as int));
                },
                OpenCode::RB => {
                    if jstack.len() == 0 {
                        proof {
                            assert(depth(s, i + 1) < 0);
                            lemma_trichotomy(s);
                        }
                        return Err(UnbalancedLoopError::UnmatchedCloser);
                    }
                    let js: usize = jstack[jstack.len() - 1];
                    jstack.pop();
                    assert(open_until(s, stack[stack.len() - 1] as int, stack.len() - 1, i as int));
                    assert(is_pair(s, js as int, i as int));
                    jtable.insert(js, i);
                    jtable.insert(i, js);
                    assert forall|d: int| 0 <= d < jstack.len() implies open_until(
                        s,
                        #[trigger] jstack[d] as int,
                        d,
                        i + 1,
                    ) by {
                        assert(open_until(s, stack[d] as int, d, i as int));
                    }
                    assert forall|a: usize| a < i && a != js implies (pending(
                        s,
                        jstack@,
                        a as int,
                    ) <==> pending(s, stack, a as int)) by {}
                    assert(!pending(s, jstack@, js as int));
                    assert(!pending(s, stack, i as int));
                    assert(pending(s, stack, js as int));
                    assert forall|a: usize| #[trigger]
                        jtable@.contains_key(a) <==> a < i + 1 && s[a as int] != Bracket::Plain
                            && !pending(s, jstack@, a as int) by {
                        if a != js && a != i {
                            assert(jtable@.contains_key(a) == table.contains_key(a));
                        }
                    }
                    assert forall|a: usize| #[trigger] jtable@.contains_key(a) implies linked(
                        s,
                        a as int,
                        jtable@[a] as int,
                    ) by {
                        if a != js && a != i {
                            assert(table.contains_key(a));
                        }
                    }
                },
                _ => {
                    assert forall|d: int| 0 <= d < jstack.len() implies open_until(
                        s,
                        #[trigger] jstack[d] as int,
                        d,
                        i + 1,
                    ) by {
                        assert(open_until(s, stack[d] as int, d, i as int));
                    }
                },
            }
            i = i + 1;
        }
        if jstack.len() > 0 {
            assert(never_negative(s));
            return Err(UnbalancedLoopError::UnterminatedOpener);
        }
        proof {
            assert(balanced(s));
            assert forall|a: usize| #[trigger]
                jtable@.contains_key(a) implies jtable@[a] == jump_table(instrs@)[a] by {
                if s[a as int] == Bracket::Open {
                    lemma_partner(s, a as int, jtable@[a] as int);
                } else {
                    lemma_partner(s, jtable@[a] as int, a as int);
                }
            }
            assert(jtable@ =~= jump_table(instrs@));
        }
        Ok(BrainfuckCode { instrs, jtable })
    }

    /// The tokens of the program.
    pub fn instrs(&self) -> (instrs: &Vec<OpenCode>)
        ensures
            instrs@ == self.tokens(),
            self.well_formed(),
    {
        proof {
            use_type_invariant(self);
        }
        &self.instrs
    }

    /// The jump table of the program.
    pub fn jtable(&self) -> (jtable: &HashMap<usize, usize>)
        ensures
            jtable@ == self.jumps(),
            self.well_formed(),
    {
        proof {
            use_type_invariant(self);
        }
        &self.jtable
    }

    /// Gives up the program for its tokens.
    pub fn into_instrs(self) -> (instrs: Vec<OpenCode>)
        ensures
            instrs@ == self.tokens(),
            balanced(token_brackets(instrs@)),
    {
        proof {
            use_type_invariant(&self);
        }
        self.instrs
    }

    /// The other end of the loop that the bracket at `pc` belongs to; `None` where `pc` holds
    /// no bracket.
    pub fn target(&self, pc: usize) -> (target: Option<usize>)
        ensures
            self.well_formed(),
            self.tokens().len() <= usize::MAX,
            target == if pc < self.tokens().len() && self.tokens()[pc as int].bracket()
                != Bracket::Plain {
                Some(partner(token_brackets(self.tokens()), pc as int) as usize)
            } else {
                None
            },
    {
        proof {
            use_type_invariant(self);
            assert(self.instrs.len() == self.instrs@.len());
        }
        match self.jtable.get(&pc) {
            Some(target) => Some(*target),
            None => None,
        }
    }
}

} // verus!
