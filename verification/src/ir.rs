//! The intermediate representation: tokens, operations, the source scanner,
//! and the translator that turns filtered source text into an operation
//! sequence with resolved loop jump addresses.

use vstd::prelude::*;
use vstd::string::StrSliceExecFns;

verus! {

/// The eight instruction kinds, each identified by its source character.
#[derive(Clone, Copy, Debug, PartialEq, Eq, Structural)]
pub enum Token {
    INC,
    DEC,
    LEFT,
    RIGHT,
    LOOP,
    POOL,
    INPUT,
    OUTPUT,
}

/// Which side of a loop is missing its partner.
#[derive(Clone, Copy, Debug, PartialEq, Eq, Structural)]
pub enum BracketErrorKind {
    OpenWithoutClose,
    CloseWithoutOpen,
}

/// Why a persisted operation sequence could not be restored.
#[derive(Clone, Copy, Debug, PartialEq, Eq, Structural)]
pub enum DecodeErrorKind {
    InvalidToken,
    MalformedNumber,
    Corrupt,
}

/// Everything that can go wrong across translation, the codecs, and
/// execution.
#[derive(Clone, Copy, Debug, PartialEq, Eq, Structural)]
pub enum Error {
    UnmatchedBracket(BracketErrorKind),
    DecodeError(DecodeErrorKind),
    EmptyProgram,
    IOFailure,
    InputExhausted,
    OutOfBounds,
}

/// The source character a token stands for.
pub open spec fn token_char(t: Token) -> char {
    match t {
        Token::INC => '+',
        Token::DEC => '-',
        Token::LEFT => '<',
        Token::RIGHT => '>',
        Token::LOOP => '[',
        Token::POOL => ']',
        Token::INPUT => ',',
        Token::OUTPUT => '.',
    }
}

/// The byte value of a token's source character, used as its tag in the
/// binary encoding.
pub open spec fn token_byte(t: Token) -> u8 {
    match t {
        Token::INC => 43,
        Token::DEC => 45,
        Token::LEFT => 60,
        Token::RIGHT => 62,
        Token::LOOP => 91,
        Token::POOL => 93,
        Token::INPUT => 44,
        Token::OUTPUT => 46,
    }
}

/// Whether a character belongs to the eight-symbol instruction alphabet.
pub open spec fn is_instr_char(c: char) -> bool {
    c == '+' || c == '-' || c == '<' || c == '>' || c == '[' || c == ']' || c == ','
        || c == '.'
}

/// Whether every character of a sequence is an instruction character, as the
/// filtering collaborator guarantees of the translator's input.
pub open spec fn is_filtered(s: Seq<char>) -> bool {
    forall|i: int| 0 <= i < s.len() ==> is_instr_char(#[trigger] s[i])
}

/// The token of an instruction character; meaningful only on the eight
/// instruction characters.
pub open spec fn char_token(c: char) -> Token {
    if c == '+' {
        Token::INC
    } else if c == '-' {
        Token::DEC
    } else if c == '<' {
        Token::LEFT
    } else if c == '>' {
        Token::RIGHT
    } else if c == '[' {
        Token::LOOP
    } else if c == ']' {
        Token::POOL
    } else if c == ',' {
        Token::INPUT
    } else {
        Token::OUTPUT
    }
}

/// The token of a tag byte, or `None` for a byte outside the alphabet.
pub open spec fn spec_token_of_byte(b: u8) -> Option<Token> {
    if b == 43 {
        Some(Token::INC)
    } else if b == 45 {
        Some(Token::DEC)
    } else if b == 60 {
        Some(Token::LEFT)
    } else if b == 62 {
        Some(Token::RIGHT)
    } else if b == 91 {
        Some(Token::LOOP)
    } else if b == 93 {
        Some(Token::POOL)
    } else if b == 44 {
        Some(Token::INPUT)
    } else if b == 46 {
        Some(Token::OUTPUT)
    } else {
        None
    }
}

impl Token {
    /// Total character-to-token mapping with an explicit fallback error in
    /// place of a partial match.
    pub fn from_char(c: char) -> (r: Result<Token, Error>)
        ensures
            is_instr_char(c) ==> r == Ok::<Token, Error>(char_token(c)),
            !is_instr_char(c) ==> r == Err::<Token, Error>(
                Error::DecodeError(DecodeErrorKind::InvalidToken),
            ),
    {
        if c == '+' {
            Ok(Token::INC)
        } else if c == '-' {
            Ok(Token::DEC)
        } else if c == '<' {
            Ok(Token::LEFT)
        } else if c == '>' {
            Ok(Token::RIGHT)
        } else if c == '[' {
            Ok(Token::LOOP)
        } else if c == ']' {
            Ok(Token::POOL)
        } else if c == ',' {
            Ok(Token::INPUT)
        } else if c == '.' {
            Ok(Token::OUTPUT)
        } else {
            Err(Error::DecodeError(DecodeErrorKind::InvalidToken))
        }
    }

    /// Total tag-byte-to-token mapping with an explicit fallback error.
    pub fn from_byte(b: u8) -> (r: Result<Token, Error>)
        ensures
            match spec_token_of_byte(b) {
                Some(t) => r == Ok::<Token, Error>(t),
                None => r == Err::<Token, Error>(
                    Error::DecodeError(DecodeErrorKind::InvalidToken),
                ),
            },
    {
        if b == 43 {
            Ok(Token::INC)
        } else if b == 45 {
            Ok(Token::DEC)
        } else if b == 60 {
            Ok(Token::LEFT)
        } else if b == 62 {
            Ok(Token::RIGHT)
        } else if b == 91 {
            Ok(Token::LOOP)
        } else if b == 93 {
            Ok(Token::POOL)
        } else if b == 44 {
            Ok(Token::INPUT)
        } else if b == 46 {
            Ok(Token::OUTPUT)
        } else {
            Err(Error::DecodeError(DecodeErrorKind::InvalidToken))
        }
    }
}

/// One executable operation: a token, the run length it stands for, and, for
/// loop tokens, the index of the paired loop operation.
#[derive(Clone, Copy, Debug, PartialEq, Eq, Structural)]
pub struct Operation {
    pub token: Token,
    pub count: u32,
    pub match_addr: u32,
}

/// Whether a token is one of the two loop brackets.
pub open spec fn is_loop_token(t: Token) -> bool {
    t == Token::LOOP || t == Token::POOL
}

/// The translator's single left-to-right pass, one character at a time:
/// `ops` holds the operations emitted so far and `stack` the indices of loop
/// opens still waiting for their close. A repeated non-loop character merges
/// into the run it extends; an open pushes its own output index; a close
/// pops one and backpatches that open's jump target.
pub open spec fn translate_from(
    s: Seq<char>,
    i: nat,
    ops: Seq<Operation>,
    stack: Seq<usize>,
) -> Result<Seq<Operation>, Error>
    decreases s.len() - i,
{
    if i >= s.len() {
        if stack.len() == 0 {
            Ok(ops)
        } else {
            Err(Error::UnmatchedBracket(BracketErrorKind::OpenWithoutClose))
        }
    } else {
        let c = s[i as int];
        if c == '[' {
            translate_from(
                s,
                i + 1,
                ops.push(Operation { token: Token::LOOP, count: 1, match_addr: 0 }),
                stack.push(ops.len() as usize),
            )
        } else if c == ']' {
            if stack.len() == 0 {
                Err(Error::UnmatchedBracket(BracketErrorKind::CloseWithoutOpen))
            } else {
                let j = stack.last() as int;
                let opened = ops[j];
                translate_from(
                    s,
                    i + 1,
                    ops.update(
                        j,
                        Operation {
                            token: opened.token,
                            count: opened.count,
                            match_addr: ops.len() as u32,
                        },
                    ).push(
                        Operation { token: Token::POOL, count: 1, match_addr: stack.last() as u32 },
                    ),
                    stack.drop_last(),
                )
            }
        } else {
            let t = char_token(c);
            if ops.len() > 0 && ops.last().token == t {
                let prev = ops.last();
                translate_from(
                    s,
                    i + 1,
                    ops.update(
                        ops.len() - 1,
                        Operation {
                            token: prev.token,
                            count: (prev.count + 1) as u32,
                            match_addr: prev.match_addr,
                        },
                    ),
                    stack,
                )
            } else {
                translate_from(
                    s,
                    i + 1,
                    ops.push(Operation { token: t, count: 1, match_addr: 0 }),
                    stack,
                )
            }
        }
    }
}

/// What translating a whole filtered character sequence yields.
pub open spec fn translate_spec(s: Seq<char>) -> Result<Seq<Operation>, Error> {
    translate_from(s, 0, Seq::empty(), Seq::empty())
}

/// Indices `i < j` form a resolved loop pair: an open and its close, each
/// holding the other's index as its jump target.
pub open spec fn pair_ok(ops: Seq<Operation>, i: int, j: int) -> bool {
    &&& 0 <= i < j < ops.len()
    &&& ops[i].token == Token::LOOP
    &&& ops[j].token == Token::POOL
    &&& ops[i].match_addr == j
    &&& ops[j].match_addr == i
}

/// Every loop operation belongs to a resolved pair, in both directions.
pub open spec fn pairs_resolved(ops: Seq<Operation>) -> bool {
    &&& forall|i: int|
        0 <= i < ops.len() && (#[trigger] ops[i]).token == Token::LOOP ==> pair_ok(
            ops,
            i,
            ops[i].match_addr as int,
        )
    &&& forall|j: int|
        0 <= j < ops.len() && (#[trigger] ops[j]).token == Token::POOL ==> pair_ok(
            ops,
            ops[j].match_addr as int,
            j,
        )
}

/// Run lengths are at least one; loop operations carry count one, and
/// non-loop operations leave the jump target at its unused value zero.
pub open spec fn counts_valid(ops: Seq<Operation>) -> bool {
    forall|i: int|
        0 <= i < ops.len() ==> {
            let op = #[trigger] ops[i];
            &&& op.count >= 1
            &&& (is_loop_token(op.token) ==> op.count == 1)
            &&& (!is_loop_token(op.token) ==> op.match_addr == 0)
        }
}

/// Any two loop pairs are disjoint or one strictly contains the other.
pub open spec fn well_nested(ops: Seq<Operation>) -> bool {
    forall|i1: int, i2: int|
        0 <= i1 < i2 < ops.len() && (#[trigger] ops[i1]).token == Token::LOOP
            && (#[trigger] ops[i2]).token == Token::LOOP ==> ((ops[i1].match_addr as int) < i2
            || (ops[i2].match_addr as int) < (ops[i1].match_addr as int))
}

/// The invariants a translated program enjoys.
pub open spec fn well_formed(ops: Seq<Operation>) -> bool {
    pairs_resolved(ops) && counts_valid(ops) && well_nested(ops)
}

/// Whether index `i` is among the pending loop opens.
pub open spec fn on_stack(stack: Seq<usize>, i: int) -> bool {
    exists|k: int| 0 <= k < stack.len() && stack[k] == i
}

/// The invariant the translator maintains between characters: pending opens
/// are listed in increasing order, everything off that list is already
/// resolved, and no resolved pair straddles a pending open.
pub open spec fn trans_inv(ops: Seq<Operation>, stack: Seq<usize>) -> bool {
    &&& forall|k: int|
        0 <= k < stack.len() ==> (#[trigger] stack[k]) < ops.len() && ops[stack[k] as int].token
            == Token::LOOP
    &&& forall|k1: int, k2: int| 0 <= k1 < k2 < stack.len() ==> stack[k1] < stack[k2]
    &&& forall|i: int|
        0 <= i < ops.len() ==> {
            let op = #[trigger] ops[i];
            &&& op.count >= 1
            &&& (is_loop_token(op.token) ==> op.count == 1)
            &&& (!is_loop_token(op.token) ==> op.match_addr == 0)
        }
    &&& forall|i: int|
        0 <= i < ops.len() && (#[trigger] ops[i]).token == Token::LOOP && !on_stack(stack, i)
            ==> pair_ok(ops, i, ops[i].match_addr as int)
    &&& forall|j: int|
        0 <= j < ops.len() && (#[trigger] ops[j]).token == Token::POOL ==> pair_ok(
            ops,
            ops[j].match_addr as int,
            j,
        ) && !on_stack(stack, ops[j].match_addr as int)
    &&& forall|i: int, k: int|
        0 <= i < ops.len() && (#[trigger] ops[i]).token == Token::LOOP && !on_stack(stack, i) && 0
            <= k < stack.len() ==> !(i < (#[trigger] stack[k]) < (ops[i].match_addr as int))
    &&& forall|i1: int, i2: int|
        0 <= i1 < i2 < ops.len() && (#[trigger] ops[i1]).token == Token::LOOP
            && (#[trigger] ops[i2]).token == Token::LOOP && !on_stack(stack, i1) && !on_stack(
            stack,
            i2,
        ) ==> ((ops[i1].match_addr as int) < i2 || (ops[i2].match_addr as int) < (ops[
            i1
        ].match_addr as int))
}

proof fn lemma_on_stack_push(stack: Seq<usize>, e: usize, x: int)
    ensures
        on_stack(stack.push(e), x) <==> (on_stack(stack, x) || x == e),
{
    if on_stack(stack, x) {
        let k = choose|k: int| 0 <= k < stack.len() && stack[k] == x;
        assert(stack.push(e)[k] == x);
    }
    if x == e {
        assert(stack.push(e)[stack.len() as int] == x);
    }
    if on_stack(stack.push(e), x) && x != e {
        let k = choose|k: int| 0 <= k < stack.push(e).len() && stack.push(e)[k] == x;
        assert(stack[k] == x);
    }
}

proof fn lemma_on_stack_drop_last(stack: Seq<usize>, x: int)
    requires
        stack.len() > 0,
    ensures
        on_stack(stack, x) <==> (on_stack(stack.drop_last(), x) || x == stack.last()),
{
    if on_stack(stack.drop_last(), x) {
        let k = choose|k: int|
            0 <= k < stack.drop_last().len() && stack.drop_last()[k] == x;
        assert(stack[k] == x);
    }
    if x == stack.last() {
        assert(stack[stack.len() - 1] == x);
    }
    if on_stack(stack, x) && x != stack.last() {
        let k = choose|k: int| 0 <= k < stack.len() && stack[k] == x;
        assert(stack.drop_last()[k] == x);
    }
}

/// Each translation step keeps `trans_inv`, so a successful translation
/// yields a well-formed program.
#[verifier::rlimit(100)]
proof fn lemma_translate_from_wf(s: Seq<char>, i: nat, ops: Seq<Operation>, stack: Seq<usize>)
    requires
        trans_inv(ops, stack),
        i <= s.len(),
        ops.len() + (s.len() - i) <= u32::MAX,
        forall|k: int|
            0 <= k < ops.len() ==> (#[trigger] ops[k]).count + (s.len() - i) <= u32::MAX,
        translate_from(s, i, ops, stack) is Ok,
    ensures
        well_formed(translate_from(s, i, ops, stack)->Ok_0),
    decreases s.len() - i,
{
    if i >= s.len() {
        assert(stack.len() == 0);
        assert forall|x: int| !on_stack(stack, x) by {
            if on_stack(stack, x) {
                let k = choose|k: int| 0 <= k < stack.len() && stack[k] == x;
            }
        }
        assert(pairs_resolved(ops));
        assert(counts_valid(ops));
        assert(well_nested(ops));
    } else {
        let c = s[i as int];
        if c == '[' {
            let l = ops.len() as int;
            let ops2 = ops.push(Operation { token: Token::LOOP, count: 1, match_addr: 0 });
            let stack2 = stack.push(ops.len() as usize);
            assert forall|x: int| on_stack(stack2, x) <==> (on_stack(stack, x) || x == l) by {
                lemma_on_stack_push(stack, ops.len() as usize, x);
            }
            assert(translate_from(s, i, ops, stack) == translate_from(s, i + 1, ops2, stack2));
            assert forall|i0: int|
                0 <= i0 < ops2.len() && (#[trigger] ops2[i0]).token == Token::LOOP && !on_stack(
                    stack2,
                    i0,
                ) implies pair_ok(ops2, i0, ops2[i0].match_addr as int) by {
                assert(i0 != l);
                assert(ops2[i0] == ops[i0]);
                assert(pair_ok(ops, i0, ops[i0].match_addr as int));
            }
            assert forall|j0: int|
                0 <= j0 < ops2.len() && (#[trigger] ops2[j0]).token == Token::POOL implies pair_ok(
                ops2,
                ops2[j0].match_addr as int,
                j0,
            ) && !on_stack(stack2, ops2[j0].match_addr as int) by {
                assert(j0 != l);
                assert(ops2[j0] == ops[j0]);
                assert(pair_ok(ops, ops[j0].match_addr as int, j0));
            }
            assert forall|i0: int, k: int|
                0 <= i0 < ops2.len() && (#[trigger] ops2[i0]).token == Token::LOOP && !on_stack(
                    stack2,
                    i0,
                ) && 0 <= k < stack2.len() implies !(i0 < (#[trigger] stack2[k]) < (
            ops2[i0].match_addr as int)) by {
                assert(i0 != l);
                assert(ops2[i0] == ops[i0]);
                assert(pair_ok(ops, i0, ops[i0].match_addr as int));
                if k < stack.len() {
                    assert(stack2[k] == stack[k]);
                } else {
                    assert(stack2[k] == l);
                    assert((ops[i0].match_addr as int) < l);
                }
            }
            assert forall|i1: int, i2: int|
                0 <= i1 < i2 < ops2.len() && (#[trigger] ops2[i1]).token == Token::LOOP
                    && (#[trigger] ops2[i2]).token == Token::LOOP && !on_stack(stack2, i1)
                    && !on_stack(stack2, i2) implies ((ops2[i1].match_addr as int) < i2 || (
            ops2[i2].match_addr as int) < (ops2[i1].match_addr as int)) by {
                assert(i1 != l && i2 != l);
                assert(ops2[i1] == ops[i1] && ops2[i2] == ops[i2]);
            }
            assert(trans_inv(ops2, stack2));
            lemma_translate_from_wf(s, i + 1, ops2, stack2);
        } else if c == ']' {
            assert(stack.len() > 0);
            let j = stack.last() as int;
            let m = ops.len() as int;
            assert(stack[stack.len() - 1] == stack.last());
            assert(stack.last() < ops.len());
            assert(on_stack(stack, j));
            let opened = ops[j];
            assert(opened.token == Token::LOOP);
            let ops2 = ops.update(
                j,
                Operation { token: opened.token, count: opened.count, match_addr: m as u32 },
            ).push(Operation { token: Token::POOL, count: 1, match_addr: j as u32 });
            let stack2 = stack.drop_last();
            assert(translate_from(s, i, ops, stack) == translate_from(s, i + 1, ops2, stack2));
            assert forall|x: int| on_stack(stack, x) <==> (on_stack(stack2, x) || x == j) by {
                lemma_on_stack_drop_last(stack, x);
            }
            // everything below the popped open stays below it
            assert forall|k: int| 0 <= k < stack2.len() implies (#[trigger] stack2[k]) < j by {
                assert(stack2[k] == stack[k]);
                assert(stack[k] < stack[stack.len() - 1]);
            }
            assert(!on_stack(stack2, j));
            assert(pair_ok(ops2, j, m));
            assert forall|i0: int|
                0 <= i0 < ops2.len() && (#[trigger] ops2[i0]).token == Token::LOOP && !on_stack(
                    stack2,
                    i0,
                ) implies pair_ok(ops2, i0, ops2[i0].match_addr as int) by {
                if i0 == j {
                    assert(pair_ok(ops2, j, m));
                } else {
                    assert(i0 != m);
                    assert(ops2[i0] == ops[i0]);
                    assert(!on_stack(stack, i0));
                    let m0 = ops[i0].match_addr as int;
                    assert(pair_ok(ops, i0, m0));
                    assert(m0 != j);
                    assert(ops2[m0] == ops[m0]);
                }
            }
            assert forall|j0: int|
                0 <= j0 < ops2.len() && (#[trigger] ops2[j0]).token == Token::POOL implies pair_ok(
                ops2,
                ops2[j0].match_addr as int,
                j0,
            ) && !on_stack(stack2, ops2[j0].match_addr as int) by {
                if j0 == m {
                    assert(pair_ok(ops2, j, m));
                } else {
                    assert(ops2[j0] == ops[j0]);
                    let i0 = ops[j0].match_addr as int;
                    assert(pair_ok(ops, i0, j0));
                    assert(!on_stack(stack, i0));
                    assert(i0 != j);
                    assert(ops2[i0] == ops[i0]);
                }
            }
            assert forall|i0: int, k: int|
                0 <= i0 < ops2.len() && (#[trigger] ops2[i0]).token == Token::LOOP && !on_stack(
                    stack2,
                    i0,
                ) && 0 <= k < stack2.len() implies !(i0 < (#[trigger] stack2[k]) < (
            ops2[i0].match_addr as int)) by {
                assert(stack2[k] == stack[k]);
                if i0 == j {
                    assert(stack2[k] < j);
                } else {
                    assert(ops2[i0] == ops[i0]);
                    assert(!on_stack(stack, i0));
                }
            }
            assert forall|i1: int, i2: int|
                0 <= i1 < i2 < ops2.len() && (#[trigger] ops2[i1]).token == Token::LOOP
                    && (#[trigger] ops2[i2]).token == Token::LOOP && !on_stack(stack2, i1)
                    && !on_stack(stack2, i2) implies ((ops2[i1].match_addr as int) < i2 || (
            ops2[i2].match_addr as int) < (ops2[i1].match_addr as int)) by {
                if i1 == j {
                    // the new pair spans [j, m]; any other resolved open above j closes below m
                    assert(i2 != m);
                    assert(ops2[i2] == ops[i2]);
                    assert(!on_stack(stack, i2));
                    assert(pair_ok(ops, i2, ops[i2].match_addr as int));
                    assert((ops2[i2].match_addr as int) < m);
                } else if i2 == j {
                    assert(ops2[i1] == ops[i1]);
                    assert(!on_stack(stack, i1));
                    assert(pair_ok(ops, i1, ops[i1].match_addr as int));
                    // the straddle clause keeps j outside the resolved pair at i1
                    assert(!(i1 < j < (ops[i1].match_addr as int)));
                } else {
                    assert(i1 != m && i2 != m);
                    assert(ops2[i1] == ops[i1] && ops2[i2] == ops[i2]);
                    assert(!on_stack(stack, i1) && !on_stack(stack, i2));
                }
            }
            assert(trans_inv(ops2, stack2));
            lemma_translate_from_wf(s, i + 1, ops2, stack2);
        } else {
            let t = char_token(c);
            assert(!is_loop_token(t));
            if ops.len() > 0 && ops.last().token == t {
                let l = ops.len() as int;
                let prev = ops.last();
                assert(prev.count + 1 <= u32::MAX);
                let ops2 = ops.update(
                    l - 1,
                    Operation {
                        token: prev.token,
                        count: (prev.count + 1) as u32,
                        match_addr: prev.match_addr,
                    },
                );
                assert(translate_from(s, i, ops, stack) == translate_from(s, i + 1, ops2, stack));
                assert forall|k: int|
                    0 <= k < stack.len() implies (#[trigger] stack[k]) < ops2.len()
                    && ops2[stack[k] as int].token == Token::LOOP by {
                    assert(ops[stack[k] as int].token == Token::LOOP);
                    assert(stack[k] != l - 1);
                }
                assert forall|i0: int|
                    0 <= i0 < ops2.len() && (#[trigger] ops2[i0]).token == Token::LOOP && !on_stack(
                        stack,
                        i0,
                    ) implies pair_ok(ops2, i0, ops2[i0].match_addr as int) by {
                    assert(i0 != l - 1);
                    assert(ops2[i0] == ops[i0]);
                    let m0 = ops[i0].match_addr as int;
                    assert(pair_ok(ops, i0, m0));
                    assert(m0 != l - 1);
                    assert(ops2[m0] == ops[m0]);
                }
                assert forall|j0: int|
                    0 <= j0 < ops2.len() && (#[trigger] ops2[j0]).token == Token::POOL implies
                    pair_ok(ops2, ops2[j0].match_addr as int, j0) && !on_stack(
                    stack,
                    ops2[j0].match_addr as int,
                ) by {
                    assert(j0 != l - 1);
                    assert(ops2[j0] == ops[j0]);
                    let i0 = ops[j0].match_addr as int;
                    assert(pair_ok(ops, i0, j0));
                    assert(i0 != l - 1);
                    assert(ops2[i0] == ops[i0]);
                }
                assert forall|i0: int, k: int|
                    0 <= i0 < ops2.len() && (#[trigger] ops2[i0]).token == Token::LOOP && !on_stack(
                        stack,
                        i0,
                    ) && 0 <= k < stack.len() implies !(i0 < (#[trigger] stack[k]) < (
                ops2[i0].match_addr as int)) by {
                    assert(i0 != l - 1);
                    assert(ops2[i0] == ops[i0]);
                }
                assert forall|i1: int, i2: int|
                    0 <= i1 < i2 < ops2.len() && (#[trigger] ops2[i1]).token == Token::LOOP
                        && (#[trigger] ops2[i2]).token == Token::LOOP && !on_stack(stack, i1)
                        && !on_stack(stack, i2) implies ((ops2[i1].match_addr as int) < i2 || (
                ops2[i2].match_addr as int) < (ops2[i1].match_addr as int)) by {
                    assert(i1 != l - 1 && i2 != l - 1);
                    assert(ops2[i1] == ops[i1] && ops2[i2] == ops[i2]);
                }
                assert(trans_inv(ops2, stack));
                lemma_translate_from_wf(s, i + 1, ops2, stack);
            } else {
                let l = ops.len() as int;
                let ops2 = ops.push(Operation { token: t, count: 1, match_addr: 0 });
                assert(translate_from(s, i, ops, stack) == translate_from(s, i + 1, ops2, stack));
                assert forall|i0: int|
                    0 <= i0 < ops2.len() && (#[trigger] ops2[i0]).token == Token::LOOP && !on_stack(
                        stack,
                        i0,
                    ) implies pair_ok(ops2, i0, ops2[i0].match_addr as int) by {
                    assert(i0 != l);
                    assert(ops2[i0] == ops[i0]);
                    assert(pair_ok(ops, i0, ops[i0].match_addr as int));
                }
                assert forall|j0: int|
                    0 <= j0 < ops2.len() && (#[trigger] ops2[j0]).token == Token::POOL implies
                    pair_ok(ops2, ops2[j0].match_addr as int, j0) && !on_stack(
                    stack,
                    ops2[j0].match_addr as int,
                ) by {
                    assert(j0 != l);
                    assert(ops2[j0] == ops[j0]);
                    assert(pair_ok(ops, ops[j0].match_addr as int, j0));
                }
                assert forall|i0: int, k: int|
                    0 <= i0 < ops2.len() && (#[trigger] ops2[i0]).token == Token::LOOP && !on_stack(
                        stack,
                        i0,
                    ) && 0 <= k < stack.len() implies !(i0 < (#[trigger] stack[k]) < (
                ops2[i0].match_addr as int)) by {
                    assert(i0 != l);
                    assert(ops2[i0] == ops[i0]);
                }
                assert forall|i1: int, i2: int|
                    0 <= i1 < i2 < ops2.len() && (#[trigger] ops2[i1]).token == Token::LOOP
                        && (#[trigger] ops2[i2]).token == Token::LOOP && !on_stack(stack, i1)
                        && !on_stack(stack, i2) implies ((ops2[i1].match_addr as int) < i2 || (
                ops2[i2].match_addr as int) < (ops2[i1].match_addr as int)) by {
                    assert(i1 != l && i2 != l);
                    assert(ops2[i1] == ops[i1] && ops2[i2] == ops[i2]);
                }
                assert(trans_inv(ops2, stack));
                lemma_translate_from_wf(s, i + 1, ops2, stack);
            }
        }
    }
}

/// Bracket pairing: a program the translator accepts is well-formed — every
/// loop open points at its close and back, counts are at least one, and loop
/// pairs are disjoint or strictly nested.
pub proof fn lemma_translate_well_formed(s: Seq<char>)
    requires
        s.len() <= u32::MAX,
        translate_spec(s) is Ok,
    ensures
        well_formed(translate_spec(s)->Ok_0),
{
    lemma_translate_from_wf(s, 0, Seq::empty(), Seq::empty());
}

/// The source characters one operation stands for: its character, repeated
/// its run length times.
pub open spec fn expand_op(op: Operation) -> Seq<char> {
    Seq::new(op.count as nat, |k: int| token_char(op.token))
}

/// The source text an operation sequence stands for.
pub open spec fn expand(ops: Seq<Operation>) -> Seq<char>
    decreases ops.len(),
{
    if ops.len() == 0 {
        Seq::empty()
    } else {
        expand(ops.drop_last()) + expand_op(ops.last())
    }
}

/// Expansion reads only tokens and run lengths, never jump targets.
proof fn lemma_expand_same_runs(a: Seq<Operation>, b: Seq<Operation>)
    requires
        a.len() == b.len(),
        forall|i: int|
            0 <= i < a.len() ==> (#[trigger] a[i]).token == b[i].token && a[i].count == b[i].count,
    ensures
        expand(a) == expand(b),
    decreases a.len(),
{
    if a.len() > 0 {
        assert(forall|i: int|
            0 <= i < a.drop_last().len() ==> (#[trigger] a.drop_last()[i]) == a[i]
                && b.drop_last()[i] == b[i]);
        lemma_expand_same_runs(a.drop_last(), b.drop_last());
        assert(expand_op(a.last()) == expand_op(b.last()));
    }
}

/// Each translation step extends the expansion by the character it
/// consumed.
#[verifier::rlimit(100)]
proof fn lemma_translate_from_expansion(
    s: Seq<char>,
    i: nat,
    ops: Seq<Operation>,
    stack: Seq<usize>,
)
    requires
        is_filtered(s),
        i <= s.len(),
        expand(ops) == s.take(i as int),
        ops.len() + (s.len() - i) <= u32::MAX,
        forall|k: int|
            0 <= k < ops.len() ==> (#[trigger] ops[k]).count + (s.len() - i) <= u32::MAX,
        forall|k: int| 0 <= k < stack.len() ==> (#[trigger] stack[k]) < ops.len(),
        translate_from(s, i, ops, stack) is Ok,
    ensures
        expand(translate_from(s, i, ops, stack)->Ok_0) == s,
    decreases s.len() - i,
{
    if i >= s.len() {
        assert(s.take(i as int) =~= s);
    } else {
        let c = s[i as int];
        assert(is_instr_char(c));
        if c == '[' {
            let op = Operation { token: Token::LOOP, count: 1, match_addr: 0 };
            let ops2 = ops.push(op);
            assert(ops2.drop_last() =~= ops);
            assert(expand_op(op) =~= seq![c]);
            assert(expand(ops2) =~= s.take(i as int + 1));
            lemma_translate_from_expansion(s, i + 1, ops2, stack.push(ops.len() as usize));
        } else if c == ']' {
            assert(stack.len() > 0);
            let j = stack.last() as int;
            assert(stack[stack.len() - 1] == stack.last());
            let opened = ops[j];
            let patched = ops.update(
                j,
                Operation { token: opened.token, count: opened.count, match_addr: ops.len() as u32 },
            );
            lemma_expand_same_runs(patched, ops);
            let op = Operation { token: Token::POOL, count: 1, match_addr: j as u32 };
            let ops2 = patched.push(op);
            assert(ops2.drop_last() =~= patched);
            assert(expand_op(op) =~= seq![c]);
            assert(expand(ops2) =~= s.take(i as int + 1));
            lemma_translate_from_expansion(s, i + 1, ops2, stack.drop_last());
        } else {
            let t = char_token(c);
            assert(token_char(t) == c);
            if ops.len() > 0 && ops.last().token == t {
                let l = ops.len() as int;
                let prev = ops.last();
                let merged = Operation {
                    token: prev.token,
                    count: (prev.count + 1) as u32,
                    match_addr: prev.match_addr,
                };
                let ops2 = ops.update(l - 1, merged);
                assert(ops2.drop_last() =~= ops.drop_last());
                assert(expand_op(merged) =~= expand_op(prev).push(c));
                assert(expand(ops) == expand(ops.drop_last()) + expand_op(prev));
                assert(expand(ops2) == expand(ops.drop_last()) + expand_op(merged));
                assert(expand(ops.drop_last()) + expand_op(prev).push(c) =~= (expand(
                    ops.drop_last(),
                ) + expand_op(prev)).push(c));
                assert(s.take(i as int + 1) =~= s.take(i as int).push(c));
                assert(expand(ops2) =~= s.take(i as int + 1));
                lemma_translate_from_expansion(s, i + 1, ops2, stack);
            } else {
                let op = Operation { token: t, count: 1, match_addr: 0 };
                let ops2 = ops.push(op);
                assert(ops2.drop_last() =~= ops);
                assert(expand_op(op) =~= seq![c]);
                assert(expand(ops2) =~= s.take(i as int + 1));
                lemma_translate_from_expansion(s, i + 1, ops2, stack);
            }
        }
    }
}

/// Run-length fidelity of the translator: expanding each operation back
/// into its repeated character reproduces the filtered source exactly, so
/// the compression loses nothing.
pub proof fn lemma_translate_expansion(s: Seq<char>)
    requires
        is_filtered(s),
        s.len() <= u32::MAX,
        translate_spec(s) is Ok,
    ensures
        expand(translate_spec(s)->Ok_0) == s,
{
    assert(expand(Seq::<Operation>::empty()) == Seq::<char>::empty());
    assert(s.take(0) =~= Seq::<char>::empty());
    lemma_translate_from_expansion(s, 0, Seq::empty(), Seq::empty());
}

/// A cursor over a filtered character sequence, used during translation:
/// peek the current or following character, random access with a bounds
/// check, and advance.
pub struct Source {
    data: String,
    pointer: usize,
}

impl Source {
    /// The character sequence under the cursor.
    pub closed spec fn text(&self) -> Seq<char> {
        self.data@
    }

    /// The cursor position.
    pub closed spec fn pos(&self) -> nat {
        self.pointer as nat
    }

    pub fn new(data: String) -> (r: Source)
        ensures
            r.text() == data@,
            r.pos() == 0,
    {
        Source { data, pointer: 0 }
    }

    /// The character under the cursor.
    pub fn curr(&self) -> (r: char)
        requires
            self.pos() < self.text().len(),
        ensures
            r == self.text()[self.pos() as int],
    {
        self.data.as_str().get_char(self.pointer)
    }

    /// The character after the cursor, or the null character at or past the
    /// end.
    pub fn next(&self) -> (r: char)
        ensures
            self.pos() + 1 < self.text().len() ==> r == self.text()[self.pos() as int + 1],
            self.pos() + 1 >= self.text().len() ==> r == '\0',
    {
        let n = self.data.as_str().unicode_len();
        if self.pointer >= n {
            '\0'
        } else if self.pointer + 1 < n {
            self.data.as_str().get_char(self.pointer + 1)
        } else {
            '\0'
        }
    }

    /// The token at an arbitrary position, `OutOfBounds` past the end, or
    /// the decoding error for a character outside the alphabet.
    pub fn at(&self, index: usize) -> (r: Result<Token, Error>)
        ensures
            index >= self.text().len() ==> r == Err::<Token, Error>(Error::OutOfBounds),
            index < self.text().len() && is_instr_char(self.text()[index as int]) ==> r
                == Ok::<Token, Error>(char_token(self.text()[index as int])),
            index < self.text().len() && !is_instr_char(self.text()[index as int]) ==> r
                == Err::<Token, Error>(Error::DecodeError(DecodeErrorKind::InvalidToken)),
    {
        let n = self.data.as_str().unicode_len();
        if index >= n {
            Err(Error::OutOfBounds)
        } else {
            Token::from_char(self.data.as_str().get_char(index))
        }
    }

    /// Advance the cursor one character.
    pub fn increment(&mut self)
        requires
            old(self).pos() < usize::MAX,
        ensures
            final(self).text() == old(self).text(),
            final(self).pos() == old(self).pos() + 1,
    {
        self.pointer = self.pointer + 1;
    }
}

/// The intermediate representation: an ordered operation sequence. Order is
/// load-bearing; it is the execution order.
#[derive(Clone)]
pub struct IntermRep {
    pub operations: Vec<Operation>,
}

impl View for IntermRep {
    type V = Seq<Operation>;

    open spec fn view(&self) -> Seq<Operation> {
        self.operations@
    }
}

impl IntermRep {
    pub fn new() -> (r: IntermRep)
        ensures
            r@ == Seq::<Operation>::empty(),
    {
        IntermRep { operations: Vec::new() }
    }

    /// Translate a filtered source text: run-length-compress repeated
    /// non-loop characters and resolve bracket pairs into jump addresses.
    /// On an unbalanced text the error names the missing side and the held
    /// operations stay as they were.
    pub fn from_source_string(&mut self, data: String) -> (r: Result<(), Error>)
        requires
            is_filtered(data@),
            data@.len() <= u32::MAX,
        ensures
            match r {
                Ok(_) => translate_spec(data@) == Ok::<Seq<Operation>, Error>(final(self)@)
                    && well_formed(final(self)@) && expand(final(self)@) == data@,
                Err(e) => translate_spec(data@) == Err::<Seq<Operation>, Error>(e) && final(self)@
                    == old(self)@,
            },
    {
        let ghost input = data@;
        let mut src = Source::new(data);
        let n: usize = src.data.as_str().unicode_len();
        let mut operations: Vec<Operation> = Vec::new();
        let mut jump_stack: Vec<usize> = Vec::new();
        while src.pointer < n
            invariant
                self@ == old(self)@,
                input == data@,
                is_filtered(input),
                src.text() == input,
                n as nat == input.len(),
                input.len() <= u32::MAX,
                src.pos() <= n as nat,
                operations@.len() <= src.pos(),
                forall|k: int|
                    0 <= k < operations@.len() ==> (#[trigger] operations@[k]).count <= src.pos(),
                forall|k: int|
                    0 <= k < jump_stack@.len() ==> (#[trigger] jump_stack@[k])
                        < operations@.len(),
                translate_spec(input) == translate_from(input, src.pos(), operations@,
                jump_stack@),
            decreases n - src.pointer,
        {
            let ghost p = src.pos();
            let ghost old_ops = operations@;
            let ghost old_stack = jump_stack@;
            let c = src.curr();
            if c == '[' {
                operations.push(Operation { token: Token::LOOP, count: 1, match_addr: 0 });
                jump_stack.push(operations.len() - 1);
            } else if c == ']' {
                match jump_stack.pop() {
                    Some(addr) => {
                        let m = operations.len();
                        let opened = operations[addr];
                        operations[addr] = Operation {
                            token: opened.token,
                            count: opened.count,
                            match_addr: m as u32,
                        };
                        operations.push(
                            Operation { token: Token::POOL, count: 1, match_addr: addr as u32 },
                        );
                    },
                    None => {
                        assert(translate_from(input, p, old_ops, old_stack) == Err::<
                            Seq<Operation>,
                            Error,
                        >(Error::UnmatchedBracket(BracketErrorKind::CloseWithoutOpen)));
                        return Err(Error::UnmatchedBracket(BracketErrorKind::CloseWithoutOpen));
                    },
                }
            } else {
                let tok = if c == '+' {
                    Token::INC
                } else if c == '-' {
                    Token::DEC
                } else if c == '<' {
                    Token::LEFT
                } else if c == '>' {
                    Token::RIGHT
                } else if c == ',' {
                    Token::INPUT
                } else {
                    Token::OUTPUT
                };
                assert(tok == char_token(c));
                let ln = operations.len();
                if ln > 0 && operations[ln - 1].token == tok {
                    let prev = operations[ln - 1];
                    operations[ln - 1] = Operation {
                        token: prev.token,
                        count: prev.count + 1,
                        match_addr: prev.match_addr,
                    };
                } else {
                    operations.push(Operation { token: tok, count: 1, match_addr: 0 });
                }
            }
            src.increment();
            assert(translate_from(input, p, old_ops, old_stack) == translate_from(
                input,
                src.pos(),
                operations@,
                jump_stack@,
            ));
        }
        if jump_stack.len() > 0 {
            return Err(Error::UnmatchedBracket(BracketErrorKind::OpenWithoutClose));
        }
        proof {
            lemma_translate_well_formed(input);
            lemma_translate_expansion(input);
        }
        self.operations = operations;
        Ok(())
    }
}

} // verus!
