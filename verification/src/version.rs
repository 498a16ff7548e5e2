//! The order of version names such as `v1.53`.

use crate::order::{
    byte_values, lemma_first_byte, lemma_lex_antisymmetric, lemma_lex_total, lemma_lex_transitive,
    lemma_str_antisymmetric, lemma_str_total, lemma_str_transitive, lex_le, rank, str_le, Rank,
};
use crate::text::{chars_of, occurs, starts_with};
use vstd::prelude::*;
use vstd::slice::slice_subrange;
use vstd::utf8::encode_utf8;

verus! {

/// Whether the character is a decimal digit.
pub open spec fn is_digit(c: char) -> bool {
    '0' <= c <= '9'
}

/// Whether the text is a number in decimal notation, perhaps with leading zeros.
pub open spec fn is_number(s: Seq<char>) -> bool {
    s.len() > 0 && forall|i: int| 0 <= i < s.len() ==> is_digit(#[trigger] s[i])
}

/// The value of a decimal digit.
pub open spec fn digit_value(c: char) -> int {
    c as int - '0' as int
}

/// The number that a text of decimal digits stands for.
pub open spec fn number(s: Seq<char>) -> int
    decreases s.len(),
{
    if s.len() == 0 {
        0
    } else {
        10 * number(s.drop_last()) + digit_value(s.last())
    }
}

/// How many digits a text begins with.
pub open spec fn digit_len(s: Seq<char>) -> nat
    decreases s.len(),
{
    if s.len() == 0 || !is_digit(s[0]) {
        0
    } else {
        1 + digit_len(s.drop_first())
    }
}

/// A text begins with no more digits than it has characters, and these are digits.
pub proof fn lemma_digit_len(s: Seq<char>)
    ensures
        digit_len(s) <= s.len(),
        forall|i: int| 0 <= i < digit_len(s) ==> is_digit(#[trigger] s[i]),
        digit_len(s) < s.len() ==> !is_digit(s[digit_len(s) as int]),
    decreases s.len(),
{
    if s.len() > 0 && is_digit(s[0]) {
        let rest = s.drop_first();
        lemma_digit_len(rest);
        assert forall|i: int| 0 <= i < digit_len(s) implies is_digit(#[trigger] s[i]) by {
            if i > 0 {
                assert(is_digit(rest[i - 1]));
            }
        }
    }
}

/// The numbers that a text begins with, separated by dots, as texts.
pub open spec fn leading_texts(s: Seq<char>) -> Seq<Seq<char>>
    decreases s.len(),
{
    proof {
        lemma_digit_len(s);
    }
    let n = digit_len(s) as int;
    if n == 0 {
        seq![]
    } else if n < s.len() && s[n] == '.' {
        seq![s.take(n)] + leading_texts(s.skip(n + 1))
    } else {
        seq![s.take(n)]
    }
}

/// The numbers of a version: those that stand behind the `v`, up to the first character that belongs
/// to none of them. Of `v1.54-rc1` these are 1 and 54; a name such as `vnext` has none.
pub open spec fn numbers(name: Seq<char>) -> Seq<int> {
    if starts_with(name, "v"@) {
        leading_texts(name.skip(1)).map_values(|text: Seq<char>| number(text))
    } else {
        seq![]
    }
}

/// The order of versions, the earliest first. The numbers of two versions are compared first, one
/// after the other. Where they do not decide, because they are the same or one of the names has none,
/// the order of strings does.
pub open spec fn version_le(a: Seq<char>, b: Seq<char>) -> bool {
    if numbers(a).len() > 0 && numbers(b).len() > 0 && numbers(a) != numbers(b) {
        lex_le(numbers(a), numbers(b))
    } else {
        str_le(a, b)
    }
}

/// A name has numbers exactly when a digit follows its `v`.
proof fn lemma_has_numbers(name: Seq<char>)
    ensures
        numbers(name).len() > 0 <==> name.len() >= 2 && name[0] == 'v' && is_digit(name[1]),
{
    reveal_strlit("v");
    if name.len() >= 1 {
        assert(name.subrange(0, 1)[0] == name[0]);
        if name[0] == 'v' {
            assert(name.subrange(0, 1) =~= "v"@);
        }
    }
    if name.len() >= 2 {
        assert(name.skip(1)[0] == name[1]);
    }
}

/// The code of a character is not cut off.
proof fn lemma_char_code(c: char)
    ensures
        c as u32 as int == c as int,
{
}

/// Names with numbers stand together in the order of strings: a name without comes before all of them
/// or after all of them.
proof fn lemma_numbered_together(a: Seq<char>, b: Seq<char>, c: Seq<char>)
    requires
        numbers(a).len() > 0,
        numbers(b).len() == 0,
        numbers(c).len() > 0,
    ensures
        str_le(a, b) ==> str_le(c, b),
        str_le(b, a) ==> str_le(b, c),
{
    lemma_has_numbers(a);
    lemma_has_numbers(b);
    lemma_has_numbers(c);
    lemma_first_byte(a);
    lemma_first_byte(a.drop_first());
    lemma_first_byte(c);
    lemma_first_byte(c.drop_first());
    let x = byte_values(encode_utf8(a));
    let y = byte_values(encode_utf8(b));
    let z = byte_values(encode_utf8(c));
    reveal_with_fuel(lex_le, 3);
    assert(x[0] == 'v' as u32 && z[0] == 'v' as u32);
    assert('0' as u32 <= x.drop_first()[0] <= '9' as u32);
    assert('0' as u32 <= z.drop_first()[0] <= '9' as u32);
    if b.len() > 0 {
        lemma_first_byte(b);
        lemma_char_code(b[0]);
        if b[0] == 'v' {
            if b.len() > 1 {
                lemma_first_byte(b.drop_first());
                assert(b.drop_first()[0] == b[1]);
                lemma_char_code(b[1]);
                assert(y.drop_first()[0] < '0' as u32 || y.drop_first()[0] > '9' as u32);
            } else {
                assert(y.drop_first().len() == 0);
            }
        }
    }
}

/// Of two versions one comes first.
pub proof fn lemma_version_total(a: Seq<char>, b: Seq<char>)
    ensures
        version_le(a, b) || version_le(b, a),
{
    lemma_str_total(a, b);
    lemma_lex_total(numbers(a), numbers(b));
}

/// Two versions of which each comes before the other are the same.
pub proof fn lemma_version_antisymmetric(a: Seq<char>, b: Seq<char>)
    requires
        version_le(a, b),
        version_le(b, a),
    ensures
        a == b,
{
    if numbers(a).len() > 0 && numbers(b).len() > 0 && numbers(a) != numbers(b) {
        lemma_lex_antisymmetric(numbers(a), numbers(b));
    }
    lemma_str_antisymmetric(a, b);
}

/// The order of versions is transitive.
pub proof fn lemma_version_transitive(a: Seq<char>, b: Seq<char>, c: Seq<char>)
    requires
        version_le(a, b),
        version_le(b, c),
    ensures
        version_le(a, c),
{
    let (x, y, z) = (numbers(a), numbers(b), numbers(c));
    let (na, nb, nc) = (x.len() > 0, y.len() > 0, z.len() > 0);
    if na && nb && nc {
        if x == y && y == z {
            lemma_str_transitive(a, b, c);
        } else if x != y && y != z {
            lemma_lex_transitive(x, y, z);
            if x == z {
                lemma_lex_antisymmetric(x, y);
            }
        }
    } else if na && nb {
        lemma_numbered_together(b, c, a);
    } else if nb && nc {
        lemma_numbered_together(b, a, c);
    } else if na && nc {
        lemma_numbered_together(a, b, c);
        lemma_str_antisymmetric(b, c);
    } else {
        lemma_str_transitive(a, b, c);
    }
}

/// A version comes after another exactly when, at the first place at which their numbers differ, its
/// number is the greater one.
pub proof fn law_first_different_number_decides(a: Seq<char>, b: Seq<char>, k: int)
    requires
        0 <= k < numbers(a).len(),
        k < numbers(b).len(),
        numbers(a).take(k) == numbers(b).take(k),
        numbers(a)[k] != numbers(b)[k],
    ensures
        version_le(a, b) <==> numbers(a)[k] < numbers(b)[k],
{
    lemma_first_difference(numbers(a), numbers(b), k);
}

/// Where the numbers of two versions are the same, or one of the names has none, the order of strings
/// decides.
pub proof fn law_strings_decide_the_rest(a: Seq<char>, b: Seq<char>)
    requires
        numbers(a) == numbers(b) || numbers(a).len() == 0 || numbers(b).len() == 0,
    ensures
        version_le(a, b) == str_le(a, b),
{
}

proof fn lemma_first_difference(x: Seq<int>, y: Seq<int>, k: int)
    requires
        0 <= k < x.len(),
        k < y.len(),
        x.take(k) == y.take(k),
        x[k] != y[k],
    ensures
        lex_le(x, y) <==> x[k] < y[k],
    decreases k,
{
    if k > 0 {
        assert(x[0] == x.take(k)[0] && y[0] == y.take(k)[0]);
        assert(x.drop_first().take(k - 1) =~= x.take(k).drop_first());
        assert(y.drop_first().take(k - 1) =~= y.take(k).drop_first());
        lemma_first_difference(x.drop_first(), y.drop_first(), k - 1);
    }
}

/// Whether the rank says how `x` stands to `y`.
spec fn ranks(r: Rank, x: int, y: int) -> bool {
    match r {
        Rank::Before => x < y,
        Rank::Same => x == y,
        Rank::After => x > y,
    }
}

/// One more digit of a number.
proof fn lemma_next_digit(s: Seq<char>, i: int)
    requires
        0 <= i < s.len(),
        is_number(s),
    ensures
        number(s.take(i + 1)) == 10 * number(s.take(i)) + digit_value(s[i]),
        0 <= digit_value(s[i]) <= 9,
{
    assert(s.take(i + 1).drop_last() =~= s.take(i));
    assert(is_digit(s[i]));
}

/// How the number of the digits of `a` before those that stand over the digits of `b` stands to 0.
fn leading_rank(a: &[char], n: usize) -> (r: Rank)
    requires
        is_number(a@),
        n <= a@.len(),
    ensures
        ranks(r, number(a@.take(n as int)), 0),
{
    let mut r = Rank::Same;
    for i in 0..n
        invariant
            is_number(a@),
            n <= a@.len(),
            r != Rank::Before,
            ranks(r, number(a@.take(i as int)), 0),
    {
        proof {
            lemma_next_digit(a@, i as int);
        }
        if a[i] != '0' {
            r = Rank::After;
        }
    }
    r
}

/// How one number stands to another.
fn number_rank(a: &[char], b: &[char]) -> (r: Rank)
    requires
        is_number(a@),
        is_number(b@),
    ensures
        ranks(r, number(a@), number(b@)),
{
    let la: usize = a.len();
    let lb: usize = b.len();
    let common: usize = if la < lb {
        la
    } else {
        lb
    };
    // The digits that only the longer text has decide first.
    let mut r = if la > lb {
        leading_rank(a, la - lb)
    } else {
        match leading_rank(b, lb - la) {
            Rank::After => Rank::Before,
            _ => Rank::Same,
        }
    };
    assert(ranks(r, number(a@.take(la - common)), number(b@.take(lb - common)))) by {
        assert(number(a@.take(0)) == 0 && number(b@.take(0)) == 0);
        if la <= lb {
            lemma_number_positive(b@, lb - common);
        }
    }
    for k in 0..common
        invariant
            is_number(a@),
            is_number(b@),
            la == a@.len(),
            lb == b@.len(),
            common <= la,
            common <= lb,
            ranks(r, number(a@.take(la - common + k)), number(b@.take(lb - common + k))),
    {
        let x: char = a[la - common + k];
        let y: char = b[lb - common + k];
        proof {
            lemma_next_digit(a@, la - common + k);
            lemma_next_digit(b@, lb - common + k);
        }
        if r == Rank::Same {
            if x < y {
                r = Rank::Before;
            } else if x > y {
                r = Rank::After;
            }
        }
    }
    assert(a@.take(la as int) =~= a@ && b@.take(lb as int) =~= b@);
    r
}

/// No prefix of a number is negative.
proof fn lemma_number_positive(s: Seq<char>, i: int)
    requires
        0 <= i <= s.len(),
        is_number(s),
    ensures
        number(s.take(i)) >= 0,
    decreases i,
{
    if i > 0 {
        lemma_number_positive(s, i - 1);
        lemma_next_digit(s, i - 1);
    }
}

/// How many digits a text begins with.
fn count_digits(s: &[char]) -> (n: usize)
    ensures
        n == digit_len(s@),
{
    let mut n: usize = 0;
    assert(s@.skip(0) =~= s@);
    while n < s.len() && '0' <= s[n] && s[n] <= '9'
        invariant
            n <= s@.len(),
            digit_len(s@) == n + digit_len(s@.skip(n as int)),
        decreases s@.len() - n,
    {
        assert(s@.skip(n as int).drop_first() =~= s@.skip(n + 1));
        n = n + 1;
    }
    n
}

/// The contents of a list of pieces of text.
spec fn slice_views(pieces: Seq<&[char]>) -> Seq<Seq<char>> {
    pieces.map_values(|piece: &[char]| piece@)
}

/// The texts that a text begins with as numbers are numbers.
proof fn lemma_leading_texts(s: Seq<char>)
    ensures
        forall|i: int| 0 <= i < leading_texts(s).len() ==> is_number(#[trigger] leading_texts(s)[i]),
    decreases s.len(),
{
    lemma_digit_len(s);
    let n = digit_len(s) as int;
    if n > 0 {
        assert(is_number(s.take(n)));
        if n < s.len() && s[n] == '.' {
            let rest = s.skip(n + 1);
            lemma_leading_texts(rest);
            assert forall|i: int| 0 <= i < leading_texts(s).len() implies is_number(
                #[trigger] leading_texts(s)[i],
            ) by {
                if i > 0 {
                    assert(is_number(leading_texts(rest)[i - 1]));
                }
            }
        }
    }
}

/// The numbers that a text begins with, as texts.
fn find_texts<'a>(s: &'a [char]) -> (texts: Vec<&'a [char]>)
    ensures
        slice_views(texts@) == leading_texts(s@),
{
    let mut texts: Vec<&'a [char]> = Vec::new();
    let mut rest: &'a [char] = s;
    assert(slice_views(texts@) + leading_texts(rest@) =~= leading_texts(s@));
    loop
        invariant
            slice_views(texts@) + leading_texts(rest@) == leading_texts(s@),
        decreases rest@.len(),
    {
        let ghost before = rest@;
        let ghost had = texts@;
        let len: usize = rest.len();
        let n: usize = count_digits(rest);
        proof {
            lemma_digit_len(rest@);
        }
        if n == 0 {
            assert(slice_views(texts@) + leading_texts(rest@) =~= slice_views(texts@));
            return texts;
        }
        let text = slice_subrange(rest, 0, n);
        assert(text@ =~= before.take(n as int));
        texts.push(text);
        assert(slice_views(texts@) =~= slice_views(had).push(text@));
        if n == len || rest[n] != '.' {
            assert(slice_views(texts@) =~= slice_views(had) + leading_texts(before));
            return texts;
        }
        rest = slice_subrange(rest, n + 1, len);
        proof {
            assert(rest@ =~= before.skip(n + 1));
            assert(slice_views(texts@) + leading_texts(rest@) =~= slice_views(had)
                + leading_texts(before));
        }
    }
}

/// The numbers of a version as texts.
fn number_texts<'a>(name: &'a [char]) -> (texts: Vec<&'a [char]>)
    ensures
        are_numbers(slice_views(texts@), numbers(name@)),
{
    proof {
        reveal_strlit("v");
    }
    let v = chars_of("v");
    if !occurs(name, v.as_slice(), 0) {
        let texts: Vec<&'a [char]> = Vec::new();
        assert(slice_views(texts@).map_values(|text: Seq<char>| number(text)) =~= numbers(name@));
        return texts;
    }
    let rest = slice_subrange(name, 1, name.len());
    assert(rest@ =~= name@.skip(1));
    proof {
        lemma_leading_texts(rest@);
    }
    find_texts(rest)
}

/// Whether the texts are numbers with these values.
spec fn are_numbers(texts: Seq<Seq<char>>, values: Seq<int>) -> bool {
    &&& forall|i: int| 0 <= i < texts.len() ==> is_number(#[trigger] texts[i])
    &&& values == texts.map_values(|text: Seq<char>| number(text))
}

/// How the numbers of one version stand to those of another.
fn numbers_rank(a: &Vec<&[char]>, b: &Vec<&[char]>, Ghost(x): Ghost<Seq<int>>, Ghost(y): Ghost<
    Seq<int>,
>) -> (r: Rank)
    requires
        are_numbers(slice_views(a@), x),
        are_numbers(slice_views(b@), y),
    ensures
        match r {
            Rank::Before => lex_le(x, y) && x != y,
            Rank::Same => x == y,
            Rank::After => lex_le(y, x) && x != y,
        },
{
    let mut i: usize = 0;
    assert(x.skip(0) == x && y.skip(0) == y);
    while i < a.len() && i < b.len()
        invariant
            are_numbers(slice_views(a@), x),
            are_numbers(slice_views(b@), y),
            i <= x.len(),
            i <= y.len(),
            x.take(i as int) == y.take(i as int),
            lex_le(x, y) == lex_le(x.skip(i as int), y.skip(i as int)),
            lex_le(y, x) == lex_le(y.skip(i as int), x.skip(i as int)),
        decreases x.len() - i,
    {
        assert(x.skip(i as int)[0] == x[i as int] && y.skip(i as int)[0] == y[i as int]);
        assert(slice_views(a@)[i as int] == a@[i as int]@ && slice_views(b@)[i as int] == b@[i as int]@);
        match number_rank(a[i], b[i]) {
            Rank::Before => {
                return Rank::Before;
            },
            Rank::After => {
                return Rank::After;
            },
            Rank::Same => {},
        }
        proof {
            assert(x.skip(i as int).drop_first() == x.skip(i + 1));
            assert(y.skip(i as int).drop_first() == y.skip(i + 1));
            assert(x.take(i + 1) == x.take(i as int).push(x[i as int]));
            assert(y.take(i + 1) == y.take(i as int).push(y[i as int]));
        }
        i = i + 1;
    }
    if a.len() == b.len() {
        assert(x.take(i as int) == x && y.take(i as int) == y);
        Rank::Same
    } else if a.len() < b.len() {
        assert(x.skip(i as int).len() == 0);
        Rank::Before
    } else {
        assert(y.skip(i as int).len() == 0);
        Rank::After
    }
}

/// Where version `a` stands to version `b` in the order of versions.
pub fn version_rank(a: &str, b: &str) -> (r: Rank)
    ensures
        match r {
            Rank::Before => version_le(a@, b@) && a@ != b@,
            Rank::Same => a@ == b@,
            Rank::After => version_le(b@, a@) && a@ != b@,
        },
{
    let x = chars_of(a);
    let y = chars_of(b);
    let xs = number_texts(x.as_slice());
    let ys = number_texts(y.as_slice());
    if xs.len() > 0 && ys.len() > 0 {
        match numbers_rank(&xs, &ys, Ghost(numbers(a@)), Ghost(numbers(b@))) {
            Rank::Before => {
                return Rank::Before;
            },
            Rank::After => {
                return Rank::After;
            },
            Rank::Same => {},
        }
    }
    rank(a, b)
}

} // verus!
