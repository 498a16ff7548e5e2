//! Laws of the numbers of versions and their order.

use crate::laws::text::decimal_value;
use crate::order::lex_le;
use crate::text::starts_with;
use crate::version::{
    digit_len, is_digit, is_number, leading_texts, number, numbers, version_le,
};
use vstd::prelude::*;

verus! {

/// Whether a text is made of decimal digits, of one at least.
pub open spec fn is_decimal(s: Seq<char>) -> bool {
    s.len() > 0 && forall|i: int| 0 <= i < s.len() ==> '0' <= #[trigger] s[i] <= '9'
}

/// The number of a text of digits is what it stands for in decimal notation.
pub proof fn law_number(s: Seq<char>)
    ensures
        number(s) == decimal_value(s),
        is_number(s) <==> is_decimal(s),
    decreases s.len(),
{
    if s.len() > 0 {
        law_number(s.drop_last());
    }
}

proof fn lemma_digit_len_of(t: Seq<char>, rest: Seq<char>)
    requires
        forall|i: int| 0 <= i < t.len() ==> is_digit(#[trigger] t[i]),
        rest.len() == 0 || !is_digit(rest[0]),
    ensures
        digit_len(t + rest) == t.len(),
    decreases t.len(),
{
    if t.len() == 0 {
        assert(t + rest =~= rest);
    } else {
        let tail = t.drop_first();
        assert forall|i: int| 0 <= i < tail.len() implies is_digit(#[trigger] tail[i]) by {
            assert(tail[i] == t[i + 1]);
        }
        assert((t + rest)[0] == t[0]);
        lemma_digit_len_of(tail, rest);
        assert((t + rest).drop_first() =~= tail + rest);
    }
}

/// The numbers that a text begins with: digits and a dot give the first number and go on with what is
/// behind the dot, digits with something else behind them give the last number, and a text that does
/// not begin with a digit gives none.
pub proof fn law_leading_numbers(t: Seq<char>, rest: Seq<char>)
    requires
        is_decimal(t),
    ensures
        leading_texts(t + seq!['.'] + rest) == seq![t] + leading_texts(rest),
        rest.len() == 0 || !('0' <= rest[0] <= '9' || rest[0] == '.') ==> leading_texts(t + rest)
            == seq![t],
        rest.len() == 0 || !('0' <= rest[0] <= '9') ==> leading_texts(rest) == Seq::<
            Seq<char>,
        >::empty(),
{
    let n = t.len() as int;
    let s = t + seq!['.'] + rest;
    assert(s =~= t + (seq!['.'] + rest));
    lemma_digit_len_of(t, seq!['.'] + rest);
    assert(s.take(n) =~= t);
    assert(s.skip(n + 1) =~= rest);
    if rest.len() == 0 || !('0' <= rest[0] <= '9' || rest[0] == '.') {
        lemma_digit_len_of(t, rest);
        assert((t + rest).take(n) =~= t);
    }
}

/// The numbers of a version are those that stand behind its letter; other names have none.
pub proof fn law_numbers(s: Seq<char>)
    ensures
        numbers(seq!['v'] + s) == leading_texts(s).map_values(|t: Seq<char>| decimal_value(t)),
        s.len() == 0 || s[0] != 'v' ==> numbers(s) == Seq::<int>::empty(),
{
    reveal_strlit("v");
    let name = seq!['v'] + s;
    assert(name.subrange(0, 1) =~= "v"@);
    assert(name.skip(1) =~= s);
    assert forall|i: int| 0 <= i < leading_texts(s).len() implies #[trigger] numbers(name)[i]
        == decimal_value(leading_texts(s)[i]) by {
        law_number(leading_texts(s)[i]);
    }
    assert(numbers(name) =~= leading_texts(s).map_values(|t: Seq<char>| decimal_value(t)));
    if s.len() > 0 && starts_with(s, "v"@) {
        assert(s.subrange(0, 1)[0] == s[0]);
    }
}

proof fn lemma_prefix(x: Seq<int>, y: Seq<int>)
    requires
        x.is_prefix_of(y),
    ensures
        lex_le(x, y),
        x.len() < y.len() ==> !lex_le(y, x),
    decreases x.len(),
{
    if x.len() > 0 {
        assert(x[0] == y[0]);
        assert(x.drop_first().is_prefix_of(y.drop_first())) by {
            let a = x.drop_first();
            let b = y.drop_first();
            assert forall|i: int| 0 <= i < a.len() implies a[i] == b[i] by {
                assert(x[i + 1] == y[i + 1]);
            }
            assert(b.subrange(0, a.len() as int) =~= a);
        }
        lemma_prefix(x.drop_first(), y.drop_first());
    }
}

/// A version with further numbers comes after the version without them.
pub proof fn law_further_numbers(a: Seq<char>, b: Seq<char>)
    requires
        0 < numbers(a).len() < numbers(b).len(),
        numbers(a).is_prefix_of(numbers(b)),
    ensures
        version_le(a, b),
        !version_le(b, a),
{
    lemma_prefix(numbers(a), numbers(b));
}

} // verus!
