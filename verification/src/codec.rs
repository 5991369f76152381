//! The two persisted encodings of an operation sequence: a line-oriented
//! textual form and a fixed-record binary form. Both round-trip losslessly.

use vstd::arithmetic::div_mod::{
    lemma_fundamental_div_mod, lemma_fundamental_div_mod_converse,
};
use vstd::prelude::*;

use crate::ir::{
    counts_valid, is_loop_token, spec_token_of_byte, token_byte, DecodeErrorKind, Error, IntermRep,
    Operation, Token,
};

verus! {

/// A decimal digit character.
pub open spec fn is_digit(c: char) -> bool {
    '0' <= c && c <= '9'
}

/// The numeric value of a digit character.
pub open spec fn digit_val(c: char) -> nat {
    (c as int - 48) as nat
}

/// The digit character of a value below ten.
pub open spec fn digit_char(d: nat) -> char {
    ((d + 48) as u8) as char
}

/// The decimal digit sequence of a number, most significant first, with no
/// leading zeros except for zero itself.
pub open spec fn dec_digits(n: nat) -> Seq<char>
    decreases n,
{
    if n < 10 {
        seq![digit_char(n)]
    } else {
        dec_digits(n / 10).push(digit_char(n % 10))
    }
}

/// The value of a digit sequence, most significant first.
pub open spec fn dec_val(s: Seq<char>) -> nat
    decreases s.len(),
{
    if s.len() == 0 {
        0
    } else {
        dec_val(s.drop_last()) * 10 + digit_val(s.last())
    }
}

/// Whether every character of a sequence is a decimal digit.
pub open spec fn all_digits(s: Seq<char>) -> bool {
    forall|i: int| 0 <= i < s.len() ==> is_digit(#[trigger] s[i])
}

/// Formatting a number yields digits, at least one, that evaluate back to
/// the number.
proof fn lemma_dec_digits_val(n: nat)
    ensures
        dec_digits(n).len() >= 1,
        all_digits(dec_digits(n)),
        dec_val(dec_digits(n)) == n,
    decreases n,
{
    if n < 10 {
        let s = dec_digits(n);
        assert(s.last() == digit_char(n));
        assert(s.drop_last() =~= Seq::<char>::empty());
        assert(dec_val(Seq::<char>::empty()) == 0);
        assert(dec_val(s) == digit_val(digit_char(n)));
        assert(digit_val(digit_char(n)) == n);
        assert(is_digit(digit_char(n)));
    } else {
        lemma_dec_digits_val(n / 10);
        let s = dec_digits(n);
        let p = dec_digits(n / 10);
        assert(s == p.push(digit_char(n % 10)));
        assert(s.drop_last() =~= p);
        assert(s.last() == digit_char(n % 10));
        assert(digit_val(digit_char(n % 10)) == n % 10);
        assert(dec_val(s) == (n / 10) * 10 + n % 10);
        assert((n / 10) * 10 + n % 10 == n) by {
            lemma_fundamental_div_mod(n as int, 10);
        }
        assert forall|i: int| 0 <= i < s.len() implies is_digit(#[trigger] s[i]) by {
            if i < p.len() {
                assert(s[i] == p[i]);
            } else {
                assert(s[i] == digit_char(n % 10));
            }
        }
    }
}

/// A longer digit sequence never evaluates to less than one of its
/// prefixes.
proof fn lemma_dec_val_prefix(s: Seq<char>, j: int)
    requires
        0 <= j <= s.len(),
    ensures
        dec_val(s) >= dec_val(s.take(j)),
    decreases s.len(),
{
    if j < s.len() {
        assert(s.drop_last().take(j) =~= s.take(j));
        lemma_dec_val_prefix(s.drop_last(), j);
        assert(dec_val(s) >= dec_val(s.drop_last()));
    } else {
        assert(s.take(j) =~= s);
    }
}

/// Append the decimal digits of a number.
fn push_dec(n: u64, out: &mut Vec<char>)
    ensures
        final(out)@ == old(out)@ + dec_digits(n as nat),
    decreases n,
{
    if n >= 10 {
        assert(n / 10 < n);
        push_dec(n / 10, out);
        out.push(((n % 10) as u8 + 48) as char);
        assert(final(out)@ =~= old(out)@ + dec_digits(n as nat));
    } else {
        out.push((n as u8 + 48) as char);
        assert(final(out)@ =~= old(out)@ + dec_digits(n as nat));
    }
}

/// Parse a digit sequence as an unsigned number: fails on an empty field, a
/// non-digit, or a value that does not fit.
fn parse_digits(num: &Vec<char>) -> (r: Result<u32, Error>)
    ensures
        match r {
            Ok(v) => num@.len() > 0 && all_digits(num@) && dec_val(num@) == v && v <= u32::MAX,
            Err(e) => e == Error::DecodeError(DecodeErrorKind::MalformedNumber) && (num@.len() == 0
                || !all_digits(num@) || dec_val(num@) > u32::MAX),
        },
{
    if num.len() == 0 {
        return Err(Error::DecodeError(DecodeErrorKind::MalformedNumber));
    }
    let mut acc: u64 = 0;
    let mut i: usize = 0;
    while i < num.len()
        invariant
            i <= num@.len(),
            num@.len() > 0,
            acc <= u32::MAX,
            acc as nat == dec_val(num@.take(i as int)),
            all_digits(num@.take(i as int)),
        decreases num@.len() - i,
    {
        let c = num[i];
        if c < '0' || c > '9' {
            assert(!is_digit(num@[i as int]));
            return Err(Error::DecodeError(DecodeErrorKind::MalformedNumber));
        }
        let d = (c as u32) - 48;
        acc = acc * 10 + (d as u64);
        i = i + 1;
        proof {
            assert(num@.take(i as int).drop_last() =~= num@.take(i as int - 1));
            assert(num@.take(i as int).last() == c);
            assert forall|k: int| 0 <= k < i implies is_digit(#[trigger] num@.take(i as int)[k])
                by {
                if k < i - 1 {
                    assert(num@.take(i as int)[k] == num@.take(i as int - 1)[k]);
                }
            }
        }
        if acc > 0xffff_ffff {
            proof {
                lemma_dec_val_prefix(num@, i as int);
                assert(dec_val(num@) >= acc as nat);
            }
            return Err(Error::DecodeError(DecodeErrorKind::MalformedNumber));
        }
    }
    proof {
        assert(num@.take(num@.len() as int) =~= num@);
    }
    Ok(acc as u32)
}

/// The identifier a token is written as in the textual encoding.
pub open spec fn token_name(t: Token) -> Seq<char> {
    match t {
        Token::INC => seq!['I', 'N', 'C'],
        Token::DEC => seq!['D', 'E', 'C'],
        Token::LEFT => seq!['L', 'E', 'F', 'T'],
        Token::RIGHT => seq!['R', 'I', 'G', 'H', 'T'],
        Token::LOOP => seq!['L', 'O', 'O', 'P'],
        Token::POOL => seq!['P', 'O', 'O', 'L'],
        Token::INPUT => seq!['I', 'N', 'P', 'U', 'T'],
        Token::OUTPUT => seq!['O', 'U', 'T', 'P', 'U', 'T'],
    }
}

/// The token written as the given identifier, if any.
pub open spec fn spec_token_of_name(name: Seq<char>) -> Option<Token> {
    if name == token_name(Token::INC) {
        Some(Token::INC)
    } else if name == token_name(Token::DEC) {
        Some(Token::DEC)
    } else if name == token_name(Token::LEFT) {
        Some(Token::LEFT)
    } else if name == token_name(Token::RIGHT) {
        Some(Token::RIGHT)
    } else if name == token_name(Token::LOOP) {
        Some(Token::LOOP)
    } else if name == token_name(Token::POOL) {
        Some(Token::POOL)
    } else if name == token_name(Token::INPUT) {
        Some(Token::INPUT)
    } else if name == token_name(Token::OUTPUT) {
        Some(Token::OUTPUT)
    } else {
        None
    }
}

/// The index of the first occurrence of a character, or the length if it
/// does not occur.
pub open spec fn find_char(s: Seq<char>, c: char) -> nat
    decreases s.len(),
{
    if s.len() == 0 {
        0
    } else if s[0] == c {
        0
    } else {
        1 + find_char(s.drop_first(), c)
    }
}

/// A scan that stops at the first occurrence computes `find_char`.
proof fn lemma_find_char_at(s: Seq<char>, c: char, k: int)
    requires
        0 <= k <= s.len(),
        forall|i: int| 0 <= i < k ==> s[i] != c,
        k < s.len() ==> s[k] == c,
    ensures
        find_char(s, c) == k,
    decreases s.len(),
{
    if s.len() == 0 {
    } else if s[0] == c {
        assert(k == 0);
    } else {
        assert(forall|i: int| 0 <= i < k - 1 ==> #[trigger] s.drop_first()[i] == s[i + 1]);
        lemma_find_char_at(s.drop_first(), c, k - 1);
    }
}

/// The numeric field an operation is written with: the jump target for loop
/// tokens, the run length for the rest.
pub open spec fn num_field(op: Operation) -> nat {
    if is_loop_token(op.token) {
        op.match_addr as nat
    } else {
        op.count as nat
    }
}

/// One line of the textual encoding: the token name, a space, the numeric
/// field, and a line break.
pub open spec fn encode_op(op: Operation) -> Seq<char> {
    token_name(op.token) + seq![' '] + dec_digits(num_field(op)) + seq!['\n']
}

/// The whole textual encoding: one line per operation, in order.
pub open spec fn encode_text_spec(ops: Seq<Operation>) -> Seq<char>
    decreases ops.len(),
{
    if ops.len() == 0 {
        Seq::empty()
    } else {
        encode_text_spec(ops.drop_last()) + encode_op(ops.last())
    }
}

/// The operation a token and a parsed numeric field stand for: the field
/// lands in the slot the token uses, the other slot takes its unused value.
pub open spec fn op_of(t: Token, v: nat) -> Operation {
    if is_loop_token(t) {
        Operation { token: t, count: 1, match_addr: v as u32 }
    } else {
        Operation { token: t, count: v as u32, match_addr: 0 }
    }
}

/// Decoding one line: the field up to the first space must be a token name,
/// and the field after it must be a number that fits; anything beyond a
/// second space is ignored.
pub open spec fn parse_line_spec(line: Seq<char>) -> Result<Operation, Error> {
    let ns = find_char(line, ' ') as int;
    let name = line.take(ns);
    match spec_token_of_name(name) {
        None => Err(Error::DecodeError(DecodeErrorKind::InvalidToken)),
        Some(t) => {
            if ns >= line.len() {
                Err(Error::DecodeError(DecodeErrorKind::MalformedNumber))
            } else {
                let rest = line.subrange(ns + 1, line.len() as int);
                let num = rest.take(find_char(rest, ' ') as int);
                if num.len() == 0 || !all_digits(num) || dec_val(num) > u32::MAX {
                    Err(Error::DecodeError(DecodeErrorKind::MalformedNumber))
                } else {
                    Ok(op_of(t, dec_val(num)))
                }
            }
        },
    }
}

/// Decoding a text, line by line from the front; a final line break yields
/// no empty trailing line.
pub open spec fn decode_text_rec(s: Seq<char>, acc: Seq<Operation>) -> Result<Seq<Operation>, Error>
    decreases s.len(),
{
    if s.len() == 0 {
        Ok(acc)
    } else {
        let e = find_char(s, '\n') as int;
        match parse_line_spec(s.take(e)) {
            Err(err) => Err(err),
            Ok(op) => {
                let rest = if e < s.len() {
                    s.subrange(e + 1, s.len() as int)
                } else {
                    Seq::empty()
                };
                decode_text_rec(rest, acc.push(op))
            },
        }
    }
}

/// What decoding a whole persisted text yields.
pub open spec fn decode_text_spec(s: Seq<char>) -> Result<Seq<Operation>, Error> {
    decode_text_rec(s, Seq::empty())
}

/// Token names hold neither spaces nor line breaks.
proof fn lemma_name_plain(t: Token)
    ensures
        forall|i: int|
            0 <= i < token_name(t).len() ==> (#[trigger] token_name(t)[i]) != ' '
                && token_name(t)[i] != '\n',
{
    let name = token_name(t);
    assert forall|i: int|
        0 <= i < name.len() implies (#[trigger] name[i]) != ' ' && name[i] != '\n' by {
        match t {
            Token::INC => {
                assert(i == 0 || i == 1 || i == 2);
            },
            Token::DEC => {
                assert(i == 0 || i == 1 || i == 2);
            },
            Token::LEFT => {
                assert(i == 0 || i == 1 || i == 2 || i == 3);
            },
            Token::RIGHT => {
                assert(i == 0 || i == 1 || i == 2 || i == 3 || i == 4);
            },
            Token::LOOP => {
                assert(i == 0 || i == 1 || i == 2 || i == 3);
            },
            Token::POOL => {
                assert(i == 0 || i == 1 || i == 2 || i == 3);
            },
            Token::INPUT => {
                assert(i == 0 || i == 1 || i == 2 || i == 3 || i == 4);
            },
            Token::OUTPUT => {
                assert(i == 0 || i == 1 || i == 2 || i == 3 || i == 4 || i == 5);
            },
        }
    }
}

/// A line holding a token's name, a space, and the matching numeric field
/// parses back to the operation it was written from.
proof fn lemma_parse_encoded_line(op: Operation)
    requires
        is_loop_token(op.token) ==> op.count == 1,
        !is_loop_token(op.token) ==> op.match_addr == 0,
    ensures
        parse_line_spec(token_name(op.token) + seq![' '] + dec_digits(num_field(op))) == Ok::<
            Operation,
            Error,
        >(op),
{
    let name = token_name(op.token);
    let digits = dec_digits(num_field(op));
    let lc = name + seq![' '] + digits;
    lemma_name_plain(op.token);
    lemma_dec_digits_val(num_field(op));
    assert(lc[name.len() as int] == ' ');
    lemma_find_char_at(lc, ' ', name.len() as int);
    assert(lc.take(name.len() as int) =~= name);
    assert(spec_token_of_name(name) == Some(op.token));
    let rest = lc.subrange(name.len() as int + 1, lc.len() as int);
    assert(rest =~= digits);
    assert forall|i: int| 0 <= i < digits.len() implies (#[trigger] digits[i]) != ' ' by {
        assert(is_digit(digits[i]));
    }
    lemma_find_char_at(digits, ' ', digits.len() as int);
    assert(digits.take(digits.len() as int) =~= digits);
    assert(dec_val(digits) == num_field(op));
    assert(op_of(op.token, num_field(op)) == op);
}

/// Decoding eats the encoding of one operation off the front of the text.
proof fn lemma_decode_encoded_step(op: Operation, tail: Seq<char>, acc: Seq<Operation>)
    requires
        is_loop_token(op.token) ==> op.count == 1,
        !is_loop_token(op.token) ==> op.match_addr == 0,
    ensures
        decode_text_rec(encode_op(op) + tail, acc) == decode_text_rec(tail, acc.push(op)),
{
    let line = encode_op(op);
    let lc = token_name(op.token) + seq![' '] + dec_digits(num_field(op));
    let s = line + tail;
    lemma_name_plain(op.token);
    lemma_dec_digits_val(num_field(op));
    let e = line.len() - 1;
    assert(lc.len() == e);
    assert forall|i: int| 0 <= i < e implies (#[trigger] s[i]) != '\n' by {
        assert(s[i] == lc[i]);
        if i < token_name(op.token).len() {
        } else if i == token_name(op.token).len() {
        } else {
            assert(is_digit(dec_digits(num_field(op))[i - token_name(op.token).len() - 1]));
        }
    }
    assert(s[e] == line[e] == '\n');
    lemma_find_char_at(s, '\n', e);
    assert(s.take(e) =~= lc);
    lemma_parse_encoded_line(op);
    assert(parse_line_spec(s.take(e)) == Ok::<Operation, Error>(op));
    assert(e < s.len());
    assert(s.subrange(e + 1, s.len() as int) =~= tail);
}

/// The encoding of a sequence starts with the encoding of its first
/// operation.
proof fn lemma_encode_text_head(ops: Seq<Operation>)
    requires
        ops.len() > 0,
    ensures
        encode_text_spec(ops) == encode_op(ops[0]) + encode_text_spec(ops.drop_first()),
    decreases ops.len(),
{
    if ops.len() == 1 {
        assert(ops.drop_last() =~= Seq::<Operation>::empty());
        assert(ops.drop_first() =~= Seq::<Operation>::empty());
        assert(encode_text_spec(Seq::<Operation>::empty()) == Seq::<char>::empty());
        assert(encode_text_spec(ops) =~= encode_op(ops[0]) + encode_text_spec(ops.drop_first()));
    } else {
        lemma_encode_text_head(ops.drop_last());
        assert(ops.drop_last()[0] == ops[0]);
        assert(ops.drop_last().drop_first() =~= ops.drop_first().drop_last());
        assert(ops.drop_first().last() == ops.last());
        assert(ops.drop_first().len() > 0);
        assert(encode_text_spec(ops.drop_first()) == encode_text_spec(ops.drop_first().drop_last())
            + encode_op(ops.drop_first().last()));
        assert(encode_text_spec(ops) =~= encode_op(ops[0]) + encode_text_spec(ops.drop_first()));
    }
}

/// Decoding the encoding of a sequence appends exactly that sequence.
proof fn lemma_decode_encoded_text(ops: Seq<Operation>, acc: Seq<Operation>)
    requires
        counts_valid(ops),
    ensures
        decode_text_rec(encode_text_spec(ops), acc) == Ok::<Seq<Operation>, Error>(acc + ops),
    decreases ops.len(),
{
    if ops.len() == 0 {
        assert(acc + ops =~= acc);
    } else {
        lemma_encode_text_head(ops);
        lemma_decode_encoded_step(ops[0], encode_text_spec(ops.drop_first()), acc);
        assert forall|i: int| 0 <= i < ops.drop_first().len() implies {
            let o = #[trigger] ops.drop_first()[i];
            &&& o.count >= 1
            &&& (is_loop_token(o.token) ==> o.count == 1)
            &&& (!is_loop_token(o.token) ==> o.match_addr == 0)
        } by {
            assert(ops.drop_first()[i] == ops[i + 1]);
        }
        lemma_decode_encoded_text(ops.drop_first(), acc.push(ops[0]));
        assert(acc.push(ops[0]) + ops.drop_first() =~= acc + ops);
    }
}

/// Round trip of the textual codec: decoding what was encoded restores the
/// operation sequence exactly, for every sequence that keeps the data
/// model's conventions (counts at least one, loop operations with count
/// one, non-loop operations with a zero jump slot).
pub proof fn lemma_text_round_trip(ops: Seq<Operation>)
    requires
        counts_valid(ops),
    ensures
        decode_text_spec(encode_text_spec(ops)) == Ok::<Seq<Operation>, Error>(ops),
{
    lemma_decode_encoded_text(ops, Seq::empty());
    assert(Seq::empty() + ops =~= ops);
}

/// Parse one line of the textual encoding.
fn parse_line_exec(line: &Vec<char>) -> (r: Result<Operation, Error>)
    ensures
        r == parse_line_spec(line@),
{
    let n = line.len();
    let mut ns: usize = 0;
    while ns < n && line[ns] != ' '
        invariant
            ns <= n,
            n == line@.len(),
            forall|i: int| 0 <= i < ns ==> line@[i] != ' ',
        decreases n - ns,
    {
        ns = ns + 1;
    }
    proof {
        lemma_find_char_at(line@, ' ', ns as int);
    }
    let ghost name = line@.take(ns as int);
    let tok: Option<Token> = if ns == 3 && line[0] == 'I' && line[1] == 'N' && line[2] == 'C' {
        Some(Token::INC)
    } else if ns == 3 && line[0] == 'D' && line[1] == 'E' && line[2] == 'C' {
        Some(Token::DEC)
    } else if ns == 4 && line[0] == 'L' && line[1] == 'E' && line[2] == 'F' && line[3] == 'T' {
        Some(Token::LEFT)
    } else if ns == 5 && line[0] == 'R' && line[1] == 'I' && line[2] == 'G' && line[3] == 'H'
        && line[4] == 'T' {
        Some(Token::RIGHT)
    } else if ns == 4 && line[0] == 'L' && line[1] == 'O' && line[2] == 'O' && line[3] == 'P' {
        Some(Token::LOOP)
    } else if ns == 4 && line[0] == 'P' && line[1] == 'O' && line[2] == 'O' && line[3] == 'L' {
        Some(Token::POOL)
    } else if ns == 5 && line[0] == 'I' && line[1] == 'N' && line[2] == 'P' && line[3] == 'U'
        && line[4] == 'T' {
        Some(Token::INPUT)
    } else if ns == 6 && line[0] == 'O' && line[1] == 'U' && line[2] == 'T' && line[3] == 'P'
        && line[4] == 'U' && line[5] == 'T' {
        Some(Token::OUTPUT)
    } else {
        None
    };
    proof {
        assert(name.len() == ns);
        assert(forall|i: int| 0 <= i < ns ==> name[i] == line@[i]);
        match tok {
            Some(t) => {
                assert(name =~= token_name(t));
            },
            None => {
                assert(name != token_name(Token::INC));
                assert(name != token_name(Token::DEC));
                assert(name != token_name(Token::LEFT));
                assert(name != token_name(Token::RIGHT));
                assert(name != token_name(Token::LOOP));
                assert(name != token_name(Token::POOL));
                assert(name != token_name(Token::INPUT));
                assert(name != token_name(Token::OUTPUT));
            },
        }
        assert(tok == spec_token_of_name(name));
    }
    match tok {
        None => Err(Error::DecodeError(DecodeErrorKind::InvalidToken)),
        Some(t) => {
            if ns >= n {
                Err(Error::DecodeError(DecodeErrorKind::MalformedNumber))
            } else {
                let mut ne = ns + 1;
                while ne < n && line[ne] != ' '
                    invariant
                        ns + 1 <= ne <= n,
                        n == line@.len(),
                        forall|i: int| ns + 1 <= i < ne ==> line@[i] != ' ',
                    decreases n - ne,
                {
                    ne = ne + 1;
                }
                let ghost rest = line@.subrange(ns as int + 1, n as int);
                proof {
                    assert(forall|i: int|
                        0 <= i < rest.len() ==> #[trigger] rest[i] == line@[i + ns + 1]);
                    lemma_find_char_at(rest, ' ', ne - ns - 1);
                }
                let mut num: Vec<char> = Vec::new();
                let mut i = ns + 1;
                while i < ne
                    invariant
                        ns + 1 <= i <= ne <= n,
                        n == line@.len(),
                        num@ == line@.subrange(ns as int + 1, i as int),
                    decreases ne - i,
                {
                    num.push(line[i]);
                    proof {
                        assert(num@ =~= line@.subrange(ns as int + 1, i as int + 1));
                    }
                    i = i + 1;
                }
                proof {
                    assert(num@ =~= rest.take(ne - ns - 1));
                }
                match parse_digits(&num) {
                    Ok(v) => {
                        if matches!(t, Token::LOOP | Token::POOL) {
                            Ok(Operation { token: t, count: 1, match_addr: v })
                        } else {
                            Ok(Operation { token: t, count: v, match_addr: 0 })
                        }
                    },
                    Err(err) => Err(err),
                }
            }
        },
    }
}

/// Relies on String::from_iter: collecting characters builds the string of
/// exactly those characters, in order.
#[verifier::external_body]
pub(crate) fn chars_to_string(v: Vec<char>) -> (r: String)
    ensures
        r@ == v@,
{
    String::from_iter(v)
}

/// Append a token's name characters.
fn push_name(t: Token, out: &mut Vec<char>)
    ensures
        final(out)@ == old(out)@ + token_name(t),
{
    match t {
        Token::INC => {
            out.push('I');
            out.push('N');
            out.push('C');
        },
        Token::DEC => {
            out.push('D');
            out.push('E');
            out.push('C');
        },
        Token::LEFT => {
            out.push('L');
            out.push('E');
            out.push('F');
            out.push('T');
        },
        Token::RIGHT => {
            out.push('R');
            out.push('I');
            out.push('G');
            out.push('H');
            out.push('T');
        },
        Token::LOOP => {
            out.push('L');
            out.push('O');
            out.push('O');
            out.push('P');
        },
        Token::POOL => {
            out.push('P');
            out.push('O');
            out.push('O');
            out.push('L');
        },
        Token::INPUT => {
            out.push('I');
            out.push('N');
            out.push('P');
            out.push('U');
            out.push('T');
        },
        Token::OUTPUT => {
            out.push('O');
            out.push('U');
            out.push('T');
            out.push('P');
            out.push('U');
            out.push('T');
        },
    }
    assert(final(out)@ =~= old(out)@ + token_name(t));
}

impl IntermRep {
    /// Encode the held operations as newline-separated `NAME number` lines.
    /// An empty sequence is rejected: there is nothing to persist.
    pub fn to_text(&self) -> (r: Result<String, Error>)
        ensures
            match r {
                Ok(s) => self@.len() > 0 && s@ == encode_text_spec(self@),
                Err(e) => e == Error::EmptyProgram && self@.len() == 0,
            },
    {
        if self.operations.len() == 0 {
            return Err(Error::EmptyProgram);
        }
        let mut text: Vec<char> = Vec::new();
        let mut i: usize = 0;
        while i < self.operations.len()
            invariant
                i <= self@.len(),
                text@ == encode_text_spec(self@.take(i as int)),
            decreases self@.len() - i,
        {
            let op = self.operations[i];
            let ghost text0 = text@;
            push_name(op.token, &mut text);
            text.push(' ');
            if matches!(op.token, Token::LOOP | Token::POOL) {
                push_dec(op.match_addr as u64, &mut text);
            } else {
                push_dec(op.count as u64, &mut text);
            }
            text.push('\n');
            i = i + 1;
            proof {
                assert(self@.take(i as int).drop_last() =~= self@.take(i as int - 1));
                assert(text@ =~= text0 + encode_op(op));
                assert(text@ =~= encode_text_spec(self@.take(i as int)));
            }
        }
        proof {
            assert(self@.take(self@.len() as int) =~= self@);
        }
        Ok(chars_to_string(text))
    }

    /// Decode a persisted text back into an operation sequence. On any bad
    /// line the error names what was wrong and the held operations stay as
    /// they were.
    pub fn from_text(&mut self, data: &str) -> (r: Result<(), Error>)
        ensures
            match r {
                Ok(_) => decode_text_spec(data@) == Ok::<Seq<Operation>, Error>(final(self)@),
                Err(e) => decode_text_spec(data@) == Err::<Seq<Operation>, Error>(e)
                    && final(self)@ == old(self)@,
            },
    {
        let n = data.unicode_len();
        let mut result: Vec<Operation> = Vec::new();
        let mut pos: usize = 0;
        proof {
            assert(data@.subrange(0, n as int) =~= data@);
        }
        while pos < n
            invariant
                self@ == old(self)@,
                n == data@.len(),
                pos <= n,
                decode_text_spec(data@) == decode_text_rec(
                    data@.subrange(pos as int, n as int),
                    result@,
                ),
            decreases n - pos,
        {
            let ghost suffix = data@.subrange(pos as int, n as int);
            let ghost result0 = result@;
            let ghost p0 = pos as int;
            let mut e = pos;
            while e < n && data.get_char(e) != '\n'
                invariant
                    pos <= e <= n,
                    n == data@.len(),
                    forall|i: int| pos <= i < e ==> data@[i] != '\n',
                decreases n - e,
            {
                e = e + 1;
            }
            proof {
                assert(forall|i: int|
                    0 <= i < suffix.len() ==> #[trigger] suffix[i] == data@[i + pos]);
                lemma_find_char_at(suffix, '\n', e - pos);
            }
            let mut line: Vec<char> = Vec::new();
            let mut i = pos;
            while i < e
                invariant
                    pos <= i <= e <= n,
                    n == data@.len(),
                    line@ == data@.subrange(pos as int, i as int),
                decreases e - i,
            {
                line.push(data.get_char(i));
                proof {
                    assert(line@ =~= data@.subrange(pos as int, i as int + 1));
                }
                i = i + 1;
            }
            proof {
                assert(line@ =~= suffix.take(e - pos));
            }
            match parse_line_exec(&line) {
                Err(err) => {
                    return Err(err);
                },
                Ok(op) => {
                    result.push(op);
                    if e < n {
                        pos = e + 1;
                        proof {
                            assert(suffix.subrange(e - p0 + 1, suffix.len() as int) =~= data@
                                .subrange(pos as int, n as int));
                        }
                    } else {
                        pos = e;
                        proof {
                            assert(data@.subrange(pos as int, n as int) =~= Seq::<char>::empty());
                        }
                    }
                    proof {
                        assert(decode_text_rec(suffix, result0) == decode_text_rec(
                            data@.subrange(pos as int, n as int),
                            result@,
                        ));
                    }
                },
            }
        }
        proof {
            assert(data@.subrange(pos as int, n as int) =~= Seq::<char>::empty());
        }
        self.operations = result;
        Ok(())
    }
}

/// One line of the program listing: the operation's index, its token name,
/// and the field the token uses — the run length in parentheses, the jump
/// target in braces, or nothing for the two exchange-with-the-world tokens.
pub open spec fn listing_line(i: nat, op: Operation) -> Seq<char> {
    dec_digits(i) + seq![':', '\t'] + token_name(op.token) + (if is_loop_token(op.token) {
        seq!['\t', '{'] + dec_digits(op.match_addr as nat) + seq!['}']
    } else if op.token == Token::INPUT || op.token == Token::OUTPUT {
        Seq::<char>::empty()
    } else {
        seq!['\t', '('] + dec_digits(op.count as nat) + seq![')']
    }) + seq!['\n']
}

/// The whole human-readable listing, one numbered line per operation.
pub open spec fn listing_spec(ops: Seq<Operation>) -> Seq<char>
    decreases ops.len(),
{
    if ops.len() == 0 {
        Seq::empty()
    } else {
        listing_spec(ops.drop_last()) + listing_line((ops.len() - 1) as nat, ops.last())
    }
}

impl IntermRep {
    /// Render the held operations as a numbered, human-readable listing.
    #[verifier::rlimit(100)]
    pub fn listing(&self) -> (r: String)
        ensures
            r@ == listing_spec(self@),
    {
        let mut text: Vec<char> = Vec::new();
        let mut i: usize = 0;
        while i < self.operations.len()
            invariant
                i <= self@.len(),
                text@ == listing_spec(self@.take(i as int)),
            decreases self@.len() - i,
        {
            let op = self.operations[i];
            let ghost text0 = text@;
            push_dec(i as u64, &mut text);
            text.push(':');
            text.push('\t');
            push_name(op.token, &mut text);
            if matches!(op.token, Token::LOOP | Token::POOL) {
                text.push('\t');
                text.push('{');
                push_dec(op.match_addr as u64, &mut text);
                text.push('}');
            } else if matches!(op.token, Token::INPUT | Token::OUTPUT) {
            } else {
                text.push('\t');
                text.push('(');
                push_dec(op.count as u64, &mut text);
                text.push(')');
            }
            text.push('\n');
            i = i + 1;
            proof {
                assert(self@.take(i as int).drop_last() =~= self@.take(i as int - 1));
                assert(text@ =~= text0 + listing_line((i - 1) as nat, op));
                assert(text@ =~= listing_spec(self@.take(i as int)));
            }
        }
        proof {
            assert(self@.take(self@.len() as int) =~= self@);
        }
        chars_to_string(text)
    }
}

/// The four little-endian bytes of a 32-bit number.
pub open spec fn le_bytes(v: u32) -> Seq<u8> {
    let r1 = v / 256;
    let r2 = r1 / 256;
    seq![(v % 256) as u8, (r1 % 256) as u8, (r2 % 256) as u8, (r2 / 256) as u8]
}

/// The number four little-endian bytes hold.
pub open spec fn le_val(b0: u8, b1: u8, b2: u8, b3: u8) -> nat {
    (b0 + 256 * (b1 + 256 * (b2 + 256 * (b3 as nat)))) as nat
}

/// Little-endian round trip.
proof fn lemma_le_round_trip(v: u32)
    ensures
        le_val(le_bytes(v)[0], le_bytes(v)[1], le_bytes(v)[2], le_bytes(v)[3]) == v,
{
    let r1 = v as int / 256;
    let r2 = r1 / 256;
    lemma_fundamental_div_mod(v as int, 256);
    lemma_fundamental_div_mod(r1, 256);
    lemma_fundamental_div_mod(r2, 256);
}

/// One fixed-size record: the token's tag byte, then the run length and
/// the jump target, each in four little-endian bytes.
pub open spec fn encode_bin_op(op: Operation) -> Seq<u8> {
    seq![token_byte(op.token)] + le_bytes(op.count) + le_bytes(op.match_addr)
}

/// The whole binary encoding: one nine-byte record per operation, in
/// order.
pub open spec fn encode_binary_spec(ops: Seq<Operation>) -> Seq<u8>
    decreases ops.len(),
{
    if ops.len() == 0 {
        Seq::empty()
    } else {
        encode_binary_spec(ops.drop_last()) + encode_bin_op(ops.last())
    }
}

/// Decoding a byte stream, record by record from the front: a trailing
/// fragment or an unknown tag byte is corruption.
pub open spec fn decode_binary_rec(s: Seq<u8>, acc: Seq<Operation>) -> Result<Seq<Operation>, Error>
    decreases s.len(),
{
    if s.len() == 0 {
        Ok(acc)
    } else if s.len() < 9 {
        Err(Error::DecodeError(DecodeErrorKind::Corrupt))
    } else {
        match spec_token_of_byte(s[0]) {
            None => Err(Error::DecodeError(DecodeErrorKind::Corrupt)),
            Some(t) => decode_binary_rec(
                s.subrange(9, s.len() as int),
                acc.push(
                    Operation {
                        token: t,
                        count: le_val(s[1], s[2], s[3], s[4]) as u32,
                        match_addr: le_val(s[5], s[6], s[7], s[8]) as u32,
                    },
                ),
            ),
        }
    }
}

/// What decoding a whole persisted byte stream yields.
pub open spec fn decode_binary_spec(s: Seq<u8>) -> Result<Seq<Operation>, Error> {
    decode_binary_rec(s, Seq::empty())
}

/// Append a number's four little-endian bytes.
fn push_le(v: u32, out: &mut Vec<u8>)
    ensures
        final(out)@ == old(out)@ + le_bytes(v),
{
    out.push((v % 256) as u8);
    out.push(((v / 256) % 256) as u8);
    out.push(((v / 65536) % 256) as u8);
    out.push((v / 16777216) as u8);
    proof {
        assert(v / 65536 == (v / 256) / 256 && v / 16777216 == ((v / 256) / 256) / 256) by {
            lemma_fundamental_div_mod(v as int, 256);
            lemma_fundamental_div_mod(v as int / 256, 256);
            lemma_fundamental_div_mod((v as int / 256) / 256, 256);
            lemma_fundamental_div_mod_converse(
                v as int,
                65536,
                (v as int / 256) / 256,
                256 * ((v as int / 256) % 256) + (v as int % 256),
            );
            lemma_fundamental_div_mod_converse(
                v as int,
                16777216,
                ((v as int / 256) / 256) / 256,
                65536 * (((v as int / 256) / 256) % 256) + 256 * ((v as int / 256) % 256) + (
                v as int % 256),
            );
        }
        assert(final(out)@ =~= old(out)@ + le_bytes(v));
    }
}

/// The tag byte of a token.
fn tag_of(t: Token) -> (r: u8)
    ensures
        r == token_byte(t),
{
    match t {
        Token::INC => 43,
        Token::DEC => 45,
        Token::LEFT => 60,
        Token::RIGHT => 62,
        Token::LOOP => 91,
        Token::POOL => 93,
        Token::INPUT => 44,
        Token::OUTPUT => 46,
    }
}

/// Decoding eats one record off the front of the stream.
proof fn lemma_decode_bin_step(op: Operation, tail: Seq<u8>, acc: Seq<Operation>)
    ensures
        decode_binary_rec(encode_bin_op(op) + tail, acc) == decode_binary_rec(
            tail,
            acc.push(op),
        ),
{
    let s = encode_bin_op(op) + tail;
    assert(s[0] == token_byte(op.token));
    assert(spec_token_of_byte(token_byte(op.token)) == Some(op.token));
    lemma_le_round_trip(op.count);
    lemma_le_round_trip(op.match_addr);
    assert(s[1] == le_bytes(op.count)[0] && s[2] == le_bytes(op.count)[1] && s[3] == le_bytes(
        op.count,
    )[2] && s[4] == le_bytes(op.count)[3]);
    assert(s[5] == le_bytes(op.match_addr)[0] && s[6] == le_bytes(op.match_addr)[1] && s[7]
        == le_bytes(op.match_addr)[2] && s[8] == le_bytes(op.match_addr)[3]);
    assert(s.subrange(9, s.len() as int) =~= tail);
}

/// The encoding of a sequence starts with the record of its first
/// operation.
proof fn lemma_encode_bin_head(ops: Seq<Operation>)
    requires
        ops.len() > 0,
    ensures
        encode_binary_spec(ops) == encode_bin_op(ops[0]) + encode_binary_spec(ops.drop_first()),
    decreases ops.len(),
{
    if ops.len() == 1 {
        assert(ops.drop_last() =~= Seq::<Operation>::empty());
        assert(ops.drop_first() =~= Seq::<Operation>::empty());
        assert(encode_binary_spec(Seq::<Operation>::empty()) == Seq::<u8>::empty());
        assert(encode_binary_spec(ops) =~= encode_bin_op(ops[0]) + encode_binary_spec(
            ops.drop_first(),
        ));
    } else {
        lemma_encode_bin_head(ops.drop_last());
        assert(ops.drop_last()[0] == ops[0]);
        assert(ops.drop_last().drop_first() =~= ops.drop_first().drop_last());
        assert(ops.drop_first().last() == ops.last());
        assert(ops.drop_first().len() > 0);
        assert(encode_binary_spec(ops.drop_first()) == encode_binary_spec(
            ops.drop_first().drop_last(),
        ) + encode_bin_op(ops.drop_first().last()));
        assert(encode_binary_spec(ops) =~= encode_bin_op(ops[0]) + encode_binary_spec(
            ops.drop_first(),
        ));
    }
}

/// Decoding the encoding of a sequence appends exactly that sequence.
proof fn lemma_decode_encoded_bin(ops: Seq<Operation>, acc: Seq<Operation>)
    ensures
        decode_binary_rec(encode_binary_spec(ops), acc) == Ok::<Seq<Operation>, Error>(acc + ops),
    decreases ops.len(),
{
    if ops.len() == 0 {
        assert(acc + ops =~= acc);
    } else {
        lemma_encode_bin_head(ops);
        lemma_decode_bin_step(ops[0], encode_binary_spec(ops.drop_first()), acc);
        lemma_decode_encoded_bin(ops.drop_first(), acc.push(ops[0]));
        assert(acc.push(ops[0]) + ops.drop_first() =~= acc + ops);
    }
}

/// Round trip of the binary codec: decoding what was encoded restores the
/// operation sequence exactly, whatever it holds.
pub proof fn lemma_binary_round_trip(ops: Seq<Operation>)
    ensures
        decode_binary_spec(encode_binary_spec(ops)) == Ok::<Seq<Operation>, Error>(ops),
{
    lemma_decode_encoded_bin(ops, Seq::empty());
    assert(Seq::empty() + ops =~= ops);
}

impl IntermRep {
    /// Encode the held operations as fixed-size binary records.
    pub fn to_binary(&self) -> (r: Vec<u8>)
        ensures
            r@ == encode_binary_spec(self@),
    {
        let mut out: Vec<u8> = Vec::new();
        let mut i: usize = 0;
        while i < self.operations.len()
            invariant
                i <= self@.len(),
                out@ == encode_binary_spec(self@.take(i as int)),
            decreases self@.len() - i,
        {
            let op = self.operations[i];
            let ghost out0 = out@;
            out.push(tag_of(op.token));
            push_le(op.count, &mut out);
            push_le(op.match_addr, &mut out);
            i = i + 1;
            proof {
                assert(self@.take(i as int).drop_last() =~= self@.take(i as int - 1));
                assert(out@ =~= out0 + encode_bin_op(op));
                assert(out@ =~= encode_binary_spec(self@.take(i as int)));
            }
        }
        proof {
            assert(self@.take(self@.len() as int) =~= self@);
        }
        out
    }

    /// Decode a persisted byte stream back into an operation sequence. On a
    /// corrupt stream the held operations stay as they were.
    pub fn from_binary(&mut self, data: &[u8]) -> (r: Result<(), Error>)
        ensures
            match r {
                Ok(_) => decode_binary_spec(data@) == Ok::<Seq<Operation>, Error>(final(self)@),
                Err(e) => decode_binary_spec(data@) == Err::<Seq<Operation>, Error>(e)
                    && final(self)@ == old(self)@,
            },
    {
        let n = data.len();
        let mut result: Vec<Operation> = Vec::new();
        let mut pos: usize = 0;
        proof {
            assert(data@.subrange(0, n as int) =~= data@);
        }
        while pos < n
            invariant
                self@ == old(self)@,
                n == data@.len(),
                pos <= n,
                decode_binary_spec(data@) == decode_binary_rec(
                    data@.subrange(pos as int, n as int),
                    result@,
                ),
            decreases n - pos,
        {
            let ghost suffix = data@.subrange(pos as int, n as int);
            let ghost result0 = result@;
            let ghost p0 = pos as int;
            if n - pos < 9 {
                return Err(Error::DecodeError(DecodeErrorKind::Corrupt));
            }
            let t = match Token::from_byte(data[pos]) {
                Ok(t) => t,
                Err(_) => {
                    return Err(Error::DecodeError(DecodeErrorKind::Corrupt));
                },
            };
            let cnt = (data[pos + 1] as u32) + 256 * ((data[pos + 2] as u32) + 256 * ((data[pos
                + 3] as u32) + 256 * (data[pos + 4] as u32)));
            let mat = (data[pos + 5] as u32) + 256 * ((data[pos + 6] as u32) + 256 * ((data[pos
                + 7] as u32) + 256 * (data[pos + 8] as u32)));
            result.push(Operation { token: t, count: cnt, match_addr: mat });
            pos = pos + 9;
            proof {
                assert(suffix.subrange(9, suffix.len() as int) =~= data@.subrange(
                    pos as int,
                    n as int,
                ));
                assert(decode_binary_rec(suffix, result0) == decode_binary_rec(
                    data@.subrange(pos as int, n as int),
                    result@,
                ));
            }
        }
        proof {
            assert(data@.subrange(pos as int, n as int) =~= Seq::<u8>::empty());
        }
        self.operations = result;
        Ok(())
    }
}

} // verus!
