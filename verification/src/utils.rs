//! The pre-filtering step that strips every character outside the
//! instruction alphabet from raw source text.

use vstd::prelude::*;

use crate::codec::chars_to_string;
use crate::ir::{is_filtered, is_instr_char};

verus! {

/// A character sequence with everything outside the instruction alphabet
/// removed.
pub open spec fn filtered_view(s: Seq<char>) -> Seq<char> {
    s.filter(|c: char| is_instr_char(c))
}

/// Keep exactly the instruction characters of a raw text, in order. The
/// result is fit to hand to the translator.
pub fn filter_chars(input: &str) -> (r: String)
    ensures
        r@ == filtered_view(input@),
        is_filtered(r@),
{
    let n = input.unicode_len();
    let mut kept: Vec<char> = Vec::new();
    let mut i: usize = 0;
    proof {
        reveal(Seq::filter);
        assert(input@.take(0) =~= Seq::<char>::empty());
    }
    while i < n
        invariant
            i <= n,
            n == input@.len(),
            kept@ == filtered_view(input@.take(i as int)),
            is_filtered(kept@),
        decreases n - i,
    {
        let c = input.get_char(i);
        if c == '<' || c == '>' || c == '+' || c == '-' || c == '[' || c == ']' || c == '.' || c
            == ',' {
            kept.push(c);
        }
        i = i + 1;
        proof {
            reveal(Seq::filter);
            assert(input@.take(i as int).drop_last() =~= input@.take(i as int - 1));
            assert(input@.take(i as int).last() == c);
        }
    }
    proof {
        assert(input@.take(n as int) =~= input@);
    }
    chars_to_string(kept)
}

} // verus!
