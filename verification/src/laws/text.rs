//! Laws of texts.

use crate::order::{
    ascending, ascending_lines, ascending_strings, byte_values, lemma_listing, lemma_str_order,
    lex_le, str_le,
};
use crate::text::{
    contains, decimal, find, hexadecimal, is_whitespace, lemma_find, line_len, lines, occurs_at,
    opt_view, piece, split, starts_with, str_view, string_view, trim, trim_end, trim_start, views,
    word_len, words,
};
use vstd::prelude::*;
use vstd::utf8::encode_utf8;

verus! {

/// A text begins with another exactly when the other is a prefix of it.
pub proof fn law_starts_with(s: Seq<char>, p: Seq<char>)
    ensures
        starts_with(s, p) <==> p.is_prefix_of(s),
{
}

/// A text contains another exactly when the other is a stretch of it.
pub proof fn law_contains(s: Seq<char>, p: Seq<char>)
    ensures
        contains(s, p) <==> exists|i: int, j: int|
            0 <= i <= j <= s.len() && #[trigger] s.subrange(i, j) == p,
{
    if contains(s, p) {
        let i = choose|i: int| occurs_at(s, p, i);
        assert(s.subrange(i, i + p.len()) == p);
    }
    if exists|i: int, j: int| 0 <= i <= j <= s.len() && #[trigger] s.subrange(i, j) == p {
        let (i, j) = choose|i: int, j: int|
            0 <= i <= j <= s.len() && #[trigger] s.subrange(i, j) == p;
        assert(occurs_at(s, p, i));
    }
}

/// A text that is found stands at the place where it is found and at none before; one that is not
/// found stands nowhere.
pub proof fn law_find(s: Seq<char>, p: Seq<char>)
    ensures
        match find(s, p) {
            Some(i) => {
                &&& 0 <= i <= s.len() - p.len()
                &&& s.subrange(i, i + p.len()) == p
                &&& forall|j: int, k: int|
                    0 <= j < i && j <= k <= s.len() ==> #[trigger] s.subrange(j, k) != p
            },
            None => forall|j: int, k: int|
                0 <= j <= k <= s.len() ==> #[trigger] s.subrange(j, k) != p,
        },
{
    lemma_find(s, p);
    if let Some(i) = find(s, p) {
        assert forall|j: int, k: int| 0 <= j < i && j <= k <= s.len() implies #[trigger] s.subrange(
            j,
            k,
        ) != p by {
            if s.subrange(j, k) == p {
                assert(occurs_at(s, p, j));
            }
        }
    } else {
        assert forall|j: int, k: int| 0 <= j <= k <= s.len() implies #[trigger] s.subrange(j, k)
            != p by {
            if s.subrange(j, k) == p {
                assert(occurs_at(s, p, j));
            }
        }
    }
}

/// The text that is made of pieces with a separator between them.
pub open spec fn joined(pieces: Seq<Seq<char>>, sep: Seq<char>) -> Seq<char>
    decreases pieces.len(),
{
    if pieces.len() == 0 {
        seq![]
    } else if pieces.len() == 1 {
        pieces[0]
    } else {
        pieces[0] + sep + joined(pieces.drop_first(), sep)
    }
}

/// The pieces of a text give the text again when they are joined, and the separator stands in none of
/// them.
pub proof fn law_split(s: Seq<char>, sep: Seq<char>)
    requires
        sep.len() > 0,
    ensures
        split(s, sep).len() >= 1,
        joined(split(s, sep), sep) == s,
        forall|n: int, j: int, k: int|
            0 <= n < split(s, sep).len() && 0 <= j <= k <= split(s, sep)[n].len()
                ==> #[trigger] split(s, sep)[n].subrange(j, k) != sep,
        forall|n: int| #[trigger]
            piece(s, sep, n) == (if 0 <= n < split(s, sep).len() {
                Some(split(s, sep)[n])
            } else {
                None
            }),
    decreases s.len(),
{
    law_find(s, sep);
    lemma_find(s, sep);
    let pieces = split(s, sep);
    if let Some(i) = find(s, sep) {
        let rest = s.subrange(i + sep.len(), s.len() as int);
        law_split(rest, sep);
        assert(pieces.drop_first() =~= split(rest, sep));
        assert(s.subrange(0, i) + sep + rest =~= s);
        assert(joined(pieces, sep) == pieces[0] + sep + joined(pieces.drop_first(), sep));
        assert forall|n: int, j: int, k: int|
            0 <= n < pieces.len() && 0 <= j <= k <= pieces[n].len() implies #[trigger] pieces[n].subrange(
            j,
            k,
        ) != sep by {
            if n == 0 {
                assert(pieces[0].subrange(j, k) =~= s.subrange(j, k));
                if s.subrange(j, k) == sep {
                    assert(j < i);
                }
            } else {
                assert(pieces[n] == split(rest, sep)[n - 1]);
            }
        }
    }
}

/// What is left of a text without its white space begins and ends with something else, and only white
/// space was before and behind it.
pub proof fn law_trim(s: Seq<char>)
    ensures
        exists|a: int, b: int|
            {
                &&& 0 <= a <= b <= s.len()
                &&& #[trigger] s.subrange(a, b) == trim(s)
                &&& forall|i: int| 0 <= i < a ==> is_whitespace(#[trigger] s[i])
                &&& forall|i: int| b <= i < s.len() ==> is_whitespace(#[trigger] s[i])
            },
        trim(s).len() > 0 ==> !is_whitespace(trim(s)[0]) && !is_whitespace(trim(s).last()),
{
    let a = lemma_trim_start(s);
    let t = trim_start(s);
    let n = lemma_trim_end(t);
    let b = a + n;
    assert(s.subrange(a, b) =~= t.subrange(0, n));
    assert forall|i: int| b <= i < s.len() implies is_whitespace(#[trigger] s[i]) by {
        assert(t[i - a] == s[i]);
    }
    if trim(s).len() > 0 {
        assert(trim(s)[0] == t[0]);
    }
}

proof fn lemma_trim_start(s: Seq<char>) -> (a: int)
    ensures
        0 <= a <= s.len(),
        trim_start(s) == s.subrange(a, s.len() as int),
        forall|i: int| 0 <= i < a ==> is_whitespace(#[trigger] s[i]),
        a < s.len() ==> !is_whitespace(s[a]),
    decreases s.len(),
{
    if s.len() > 0 && is_whitespace(s[0]) {
        let rest = s.drop_first();
        let a = lemma_trim_start(rest);
        assert(rest.subrange(a, rest.len() as int) =~= s.subrange(a + 1, s.len() as int));
        assert forall|i: int| 0 <= i < a + 1 implies is_whitespace(#[trigger] s[i]) by {
            if i > 0 {
                assert(rest[i - 1] == s[i]);
            }
        }
        a + 1
    } else {
        assert(s.subrange(0, s.len() as int) =~= s);
        0
    }
}

proof fn lemma_trim_end(s: Seq<char>) -> (n: int)
    ensures
        0 <= n <= s.len(),
        trim_end(s) == s.subrange(0, n),
        forall|i: int| n <= i < s.len() ==> is_whitespace(#[trigger] s[i]),
        n > 0 ==> !is_whitespace(s[n - 1]),
    decreases s.len(),
{
    if s.len() > 0 && is_whitespace(s.last()) {
        let rest = s.drop_last();
        let n = lemma_trim_end(rest);
        assert(rest.subrange(0, n) =~= s.subrange(0, n));
        assert forall|i: int| n <= i < s.len() implies is_whitespace(#[trigger] s[i]) by {
            if i < s.len() - 1 {
                assert(rest[i] == s[i]);
            }
        }
        n
    } else {
        assert(s.subrange(0, s.len() as int) =~= s);
        s.len() as int
    }
}

/// Whether all characters of a text are white space.
pub open spec fn is_blank(s: Seq<char>) -> bool {
    forall|i: int| 0 <= i < s.len() ==> is_whitespace(#[trigger] s[i])
}

/// Whether a text is a word: not empty, and without white space.
pub open spec fn is_word(s: Seq<char>) -> bool {
    s.len() > 0 && forall|i: int| 0 <= i < s.len() ==> !is_whitespace(#[trigger] s[i])
}

proof fn lemma_word_len_of(w: Seq<char>, s: Seq<char>)
    requires
        forall|i: int| 0 <= i < w.len() ==> !is_whitespace(#[trigger] w[i]),
        s.len() == 0 || is_whitespace(s[0]),
    ensures
        word_len(w + s) == w.len(),
    decreases w.len(),
{
    if w.len() == 0 {
        assert(w + s =~= s);
    } else {
        let rest = w.drop_first();
        assert forall|i: int| 0 <= i < rest.len() implies !is_whitespace(#[trigger] rest[i]) by {
            assert(rest[i] == w[i + 1]);
        }
        assert((w + s)[0] == w[0]);
        lemma_word_len_of(rest, s);
        assert((w + s).drop_first() =~= rest + s);
    }
}

/// White space before a text changes nothing of its words; a word, followed by white space or by
/// nothing, is the first word of a text, and the words behind it are those of what is behind it.
pub proof fn law_words(blank: Seq<char>, w: Seq<char>, s: Seq<char>)
    requires
        is_blank(blank),
    ensures
        words(blank + s) == words(s),
        is_word(w) && (s.len() == 0 || is_whitespace(s[0])) ==> words(w + s) == seq![w] + words(s),
        words(Seq::<char>::empty()) == Seq::<Seq<char>>::empty(),
    decreases blank.len(),
{
    if blank.len() == 0 {
        assert(blank + s =~= s);
    } else {
        let rest = blank.drop_first();
        assert forall|i: int| 0 <= i < rest.len() implies is_whitespace(#[trigger] rest[i]) by {
            assert(rest[i] == blank[i + 1]);
        }
        law_words(rest, w, s);
        assert((blank + s)[0] == blank[0]);
        assert((blank + s).drop_first() =~= rest + s);
    }
    if is_word(w) && (s.len() == 0 || is_whitespace(s[0])) {
        lemma_word_len_of(w, s);
        assert((w + s)[0] == w[0]);
        assert((w + s).subrange(0, w.len() as int) =~= w);
        assert((w + s).subrange(w.len() as int, (w + s).len() as int) =~= s);
    }
}

proof fn lemma_line_len_of(l: Seq<char>, s: Seq<char>)
    requires
        !l.contains('\n'),
        s.len() == 0 || s[0] == '\n',
    ensures
        line_len(l + s) == l.len(),
    decreases l.len(),
{
    if l.len() == 0 {
        assert(l + s =~= s);
    } else {
        let rest = l.drop_first();
        assert(l[0] != '\n') by {
            assert(l.contains(l[0]));
        }
        assert(!rest.contains('\n')) by {
            if rest.contains('\n') {
                let i = choose|i: int| 0 <= i < rest.len() && rest[i] == '\n';
                assert(l[i + 1] == '\n');
            }
        }
        assert((l + s)[0] == l[0]);
        lemma_line_len_of(rest, s);
        assert((l + s).drop_first() =~= rest + s);
    }
}

/// A line feed ends a line, and the lines behind it are those of what is behind it. A carriage return
/// before the line feed does not belong to the line. What is behind the last line feed is a line if it
/// is not empty.
pub proof fn law_lines(l: Seq<char>, s: Seq<char>)
    requires
        !l.contains('\n'),
    ensures
        lines(l + seq!['\n'] + s) == seq![
            if l.len() > 0 && l.last() == '\r' {
                l.drop_last()
            } else {
                l
            },
        ] + lines(s),
        l.len() > 0 ==> lines(l) == seq![l],
        lines(Seq::<char>::empty()) == Seq::<Seq<char>>::empty(),
{
    let t = l + seq!['\n'] + s;
    let n = l.len() as int;
    assert(t =~= l + (seq!['\n'] + s));
    lemma_line_len_of(l, seq!['\n'] + s);
    assert(t.subrange(0, n) =~= l);
    assert(t.subrange(n + 1, t.len() as int) =~= s);
    assert(l + Seq::<char>::empty() =~= l);
    lemma_line_len_of(l, Seq::<char>::empty());
}

/// The number that decimal digits stand for.
pub open spec fn decimal_value(s: Seq<char>) -> int
    decreases s.len(),
{
    if s.len() == 0 {
        0
    } else {
        10 * decimal_value(s.drop_last()) + (s.last() as int - '0' as int)
    }
}

/// The decimal notation of a number is made of digits, has no needless zero and stands for the
/// number.
pub proof fn law_decimal(n: nat)
    ensures
        decimal(n).len() > 0,
        forall|i: int| 0 <= i < decimal(n).len() ==> '0' <= #[trigger] decimal(n)[i] <= '9',
        decimal(n)[0] == '0' ==> n == 0 && decimal(n).len() == 1,
        decimal_value(decimal(n)) == n,
    decreases n,
{
    reveal_with_fuel(decimal_value, 2);
    if n >= 10 {
        law_decimal(n / 10);
        let before = decimal(n / 10);
        assert(decimal(n).drop_last() =~= before);
        assert(decimal(n)[0] == before[0]);
    } else {
        assert(decimal(n).drop_last() =~= seq![]);
    }
}

/// The value of a hexadecimal digit.
pub open spec fn hexadecimal_digit(c: char) -> int {
    if '0' <= c <= '9' {
        c as int - '0' as int
    } else {
        c as int - 'a' as int + 10
    }
}

/// Whether a character is a hexadecimal digit in lower case.
pub open spec fn is_hexadecimal_digit(c: char) -> bool {
    '0' <= c <= '9' || 'a' <= c <= 'f'
}

/// The number that hexadecimal digits stand for.
pub open spec fn hexadecimal_value(s: Seq<char>) -> int
    decreases s.len(),
{
    if s.len() == 0 {
        0
    } else {
        16 * hexadecimal_value(s.drop_last()) + hexadecimal_digit(s.last())
    }
}

/// The hexadecimal notation of a number is made of digits, has no needless zero and stands for the
/// number.
pub proof fn law_hexadecimal(n: nat)
    ensures
        hexadecimal(n).len() > 0,
        forall|i: int|
            0 <= i < hexadecimal(n).len() ==> is_hexadecimal_digit(#[trigger] hexadecimal(n)[i]),
        hexadecimal(n)[0] == '0' ==> n == 0 && hexadecimal(n).len() == 1,
        hexadecimal_value(hexadecimal(n)) == n,
    decreases n,
{
    reveal_with_fuel(hexadecimal_value, 2);
    if n >= 16 {
        law_hexadecimal(n / 16);
        let before = hexadecimal(n / 16);
        assert(hexadecimal(n).drop_last() =~= before);
        assert(hexadecimal(n)[0] == before[0]);
    } else {
        assert(hexadecimal(n).drop_last() =~= seq![]);
    }
}

/// The contents of a vector of strings are the contents of its strings.
pub proof fn law_views(v: Seq<String>)
    ensures
        views(v).len() == v.len(),
        forall|i: int| 0 <= i < v.len() ==> #[trigger] views(v)[i] == v[i]@,
{
}

/// A string comes before another exactly when its bytes are a prefix of the other's, or at the first
/// byte at which they differ its own is smaller.
pub proof fn law_string_order(a: Seq<char>, b: Seq<char>)
    ensures
        str_le(a, b) <==> encode_utf8(a).is_prefix_of(encode_utf8(b)) || exists|k: int|
            {
                &&& 0 <= k < encode_utf8(a).len()
                &&& k < encode_utf8(b).len()
                &&& #[trigger] encode_utf8(a).take(k) == encode_utf8(b).take(k)
                &&& encode_utf8(a)[k] < encode_utf8(b)[k]
            },
{
    let (x, y) = (encode_utf8(a), encode_utf8(b));
    let (p, q) = (byte_values(x), byte_values(y));
    lemma_lex(p, q);
    assert(p.len() == x.len() && q.len() == y.len());
    assert(forall|i: int| 0 <= i < x.len() ==> p[i] == #[trigger] x[i]);
    assert(forall|i: int| 0 <= i < y.len() ==> q[i] == #[trigger] y[i]);
    if lex_le(p, q) {
        if p.is_prefix_of(q) {
            assert forall|i: int| 0 <= i < x.len() implies x[i] == #[trigger] y.subrange(
                0,
                x.len() as int,
            )[i] by {
                assert(p[i] == q.subrange(0, p.len() as int)[i]);
            }
            assert(x =~= y.subrange(0, x.len() as int));
        } else {
            let k = choose|k: int|
                {
                    &&& 0 <= k < p.len()
                    &&& k < q.len()
                    &&& #[trigger] p.take(k) == q.take(k)
                    &&& p[k] < q[k]
                };
            assert forall|i: int| 0 <= i < k implies #[trigger] x.take(k)[i] == y.take(k)[i] by {
                assert(p.take(k)[i] == q.take(k)[i]);
            }
            assert(x.take(k) =~= y.take(k));
        }
    }
    if x.is_prefix_of(y) {
        assert(p =~= q.subrange(0, p.len() as int)) by {
            assert forall|i: int| 0 <= i < p.len() implies p[i] == #[trigger] q.subrange(
                0,
                p.len() as int,
            )[i] by {
                assert(x[i] == y.subrange(0, x.len() as int)[i]);
            }
        }
    }
    if exists|k: int|
        {
            &&& 0 <= k < x.len()
            &&& k < y.len()
            &&& #[trigger] x.take(k) == y.take(k)
            &&& x[k] < y[k]
        } {
        let k = choose|k: int|
            {
                &&& 0 <= k < x.len()
                &&& k < y.len()
                &&& #[trigger] x.take(k) == y.take(k)
                &&& x[k] < y[k]
            };
        assert forall|i: int| 0 <= i < k implies #[trigger] p.take(k)[i] == q.take(k)[i] by {
            assert(x.take(k)[i] == y.take(k)[i]);
        }
        assert(p.take(k) =~= q.take(k));
    }
}

proof fn lemma_lex(p: Seq<int>, q: Seq<int>)
    ensures
        lex_le(p, q) <==> p.is_prefix_of(q) || exists|k: int|
            {
                &&& 0 <= k < p.len()
                &&& k < q.len()
                &&& #[trigger] p.take(k) == q.take(k)
                &&& p[k] < q[k]
            },
    decreases p.len(),
{
    if p.len() > 0 && q.len() > 0 {
        if p[0] == q[0] {
            let (r, t) = (p.drop_first(), q.drop_first());
            lemma_lex(r, t);
            if r.is_prefix_of(t) {
                assert(p =~= q.subrange(0, p.len() as int)) by {
                    assert forall|i: int| 0 <= i < p.len() implies p[i] == #[trigger] q.subrange(
                        0,
                        p.len() as int,
                    )[i] by {
                        if i > 0 {
                            assert(r[i - 1] == t.subrange(0, r.len() as int)[i - 1]);
                        }
                    }
                }
            } else if lex_le(r, t) {
                let k = choose|k: int|
                    {
                        &&& 0 <= k < r.len()
                        &&& k < t.len()
                        &&& #[trigger] r.take(k) == t.take(k)
                        &&& r[k] < t[k]
                    };
                assert(p.take(k + 1) =~= seq![p[0]] + r.take(k));
                assert(q.take(k + 1) =~= seq![q[0]] + t.take(k));
            }
            if p.is_prefix_of(q) {
                assert(r =~= t.subrange(0, r.len() as int)) by {
                    assert forall|i: int| 0 <= i < r.len() implies r[i] == #[trigger] t.subrange(
                        0,
                        r.len() as int,
                    )[i] by {
                        assert(p[i + 1] == q.subrange(0, p.len() as int)[i + 1]);
                    }
                }
            }
            if exists|k: int|
                {
                    &&& 0 <= k < p.len()
                    &&& k < q.len()
                    &&& #[trigger] p.take(k) == q.take(k)
                    &&& p[k] < q[k]
                } {
                let k = choose|k: int|
                    {
                        &&& 0 <= k < p.len()
                        &&& k < q.len()
                        &&& #[trigger] p.take(k) == q.take(k)
                        &&& p[k] < q[k]
                    };
                assert(r.take(k - 1) =~= p.take(k).drop_first());
                assert(t.take(k - 1) =~= q.take(k).drop_first());
                assert(r[k - 1] < t[k - 1]);
            }
        } else {
            assert(p.take(0) =~= q.take(0));
            if p.is_prefix_of(q) {
                assert(p[0] == q.subrange(0, p.len() as int)[0]);
            }
            if exists|k: int|
                {
                    &&& 0 <= k < p.len()
                    &&& k < q.len()
                    &&& #[trigger] p.take(k) == q.take(k)
                    &&& p[k] < q[k]
                } {
                let k = choose|k: int|
                    {
                        &&& 0 <= k < p.len()
                        &&& k < q.len()
                        &&& #[trigger] p.take(k) == q.take(k)
                        &&& p[k] < q[k]
                    };
                if k > 0 {
                    assert(p.take(k)[0] == q.take(k)[0]);
                }
            }
        }
    } else if p.len() == 0 {
        assert(p =~= q.subrange(0, 0));
    }
}

/// The listing of addresses holds each of them once, the lower before the higher.
pub proof fn law_ascending(s: Set<u64>)
    requires
        s.finite(),
    ensures
        ascending(s).to_set() == s,
        forall|i: int, j: int|
            0 <= i < j < ascending(s).len() ==> #[trigger] ascending(s)[i] < #[trigger] ascending(
                s,
            )[j],
{
    lemma_listing(s, |a: u64, b: u64| a <= b);
    let l = ascending(s);
    let leq = |a: u64, b: u64| a <= b;
    assert forall|i: int, j: int| 0 <= i < j < l.len() implies #[trigger] l[i] < #[trigger] l[j] by {
        assert(leq(l[i], l[j]));
        assert(l[i] != l[j]);
    }
}

/// The listing of line numbers holds each of them once, the lower before the higher.
pub proof fn law_ascending_lines(s: Set<u32>)
    requires
        s.finite(),
    ensures
        ascending_lines(s).to_set() == s,
        forall|i: int, j: int|
            0 <= i < j < ascending_lines(s).len() ==> #[trigger] ascending_lines(s)[i]
                < #[trigger] ascending_lines(s)[j],
{
    lemma_listing(s, |a: u32, b: u32| a <= b);
    let l = ascending_lines(s);
    let leq = |a: u32, b: u32| a <= b;
    assert forall|i: int, j: int| 0 <= i < j < l.len() implies #[trigger] l[i] < #[trigger] l[j] by {
        assert(leq(l[i], l[j]));
        assert(l[i] != l[j]);
    }
}

/// The listing of names holds each of them once, in the order of strings.
pub proof fn law_ascending_strings(s: Set<Seq<char>>)
    requires
        s.finite(),
    ensures
        ascending_strings(s).to_set() == s,
        forall|i: int, j: int|
            0 <= i < j < ascending_strings(s).len() ==> str_le(
                #[trigger] ascending_strings(s)[i],
                #[trigger] ascending_strings(s)[j],
            ) && ascending_strings(s)[i] != ascending_strings(s)[j],
{
    lemma_str_order();
    let leq = |a: Seq<char>, b: Seq<char>| str_le(a, b);
    lemma_listing(s, leq);
    let l = ascending_strings(s);
    assert forall|i: int, j: int| 0 <= i < j < l.len() implies str_le(
        #[trigger] l[i],
        #[trigger] l[j],
    ) && l[i] != l[j] by {
        assert(leq(l[i], l[j]));
    }
}

/// Whether `p` stands in `s` at place `i`.
pub open spec fn stands_at(s: Seq<char>, p: Seq<char>, i: int) -> bool {
    0 <= i && i + p.len() <= s.len() && s.subrange(i, i + p.len()) == p
}

/// Whether `p` is a stretch of `s`.
pub open spec fn has_part(s: Seq<char>, p: Seq<char>) -> bool {
    exists|i: int| #[trigger] stands_at(s, p, i)
}

/// A text contains exactly its stretches.
pub proof fn law_contains_parts(s: Seq<char>, p: Seq<char>)
    ensures
        contains(s, p) <==> has_part(s, p),
{
    if contains(s, p) {
        let i = choose|i: int| occurs_at(s, p, i);
        assert(stands_at(s, p, i));
    }
    if has_part(s, p) {
        let i = choose|i: int| #[trigger] stands_at(s, p, i);
        assert(occurs_at(s, p, i));
    }
}

/// A text is found where it stands first.
pub proof fn law_find_first(s: Seq<char>, p: Seq<char>, i: int)
    requires
        stands_at(s, p, i),
        forall|j: int| 0 <= j < i ==> !#[trigger] stands_at(s, p, j),
    ensures
        find(s, p) == Some(i),
{
    lemma_find(s, p);
    assert(occurs_at(s, p, i));
    let k = find(s, p)->0;
    assert(occurs_at(s, p, k));
    if k < i {
        assert(stands_at(s, p, k));
    }
}

/// The first piece of a text ends where the separator stands first, and the pieces behind it are those
/// of what is behind the separator.
pub proof fn law_split_at(a: Seq<char>, sep: Seq<char>, rest: Seq<char>)
    requires
        sep.len() > 0,
        forall|j: int| 0 <= j < a.len() ==> !#[trigger] stands_at(a + sep + rest, sep, j),
    ensures
        split(a + sep + rest, sep) == seq![a] + split(rest, sep),
{
    let s = a + sep + rest;
    let n = a.len() as int;
    assert(s.subrange(n, n + sep.len()) =~= sep);
    assert(stands_at(s, sep, n));
    law_find_first(s, sep, n);
    assert(s.subrange(0, n) =~= a);
    assert(s.subrange(n + sep.len(), s.len() as int) =~= rest);
}

/// A text in which the separator does not stand is its only piece.
pub proof fn law_unsplit(s: Seq<char>, sep: Seq<char>)
    requires
        !has_part(s, sep),
    ensures
        split(s, sep) == seq![s],
{
    law_contains_parts(s, sep);
}

/// A text without a character is the first piece of every text that goes on with that character.
pub proof fn law_split_at_char(a: Seq<char>, c: char, rest: Seq<char>)
    requires
        !a.contains(c),
    ensures
        split(a + seq![c] + rest, seq![c]) == seq![a] + split(rest, seq![c]),
        split(a, seq![c]) == seq![a],
{
    let s = a + seq![c] + rest;
    assert forall|j: int| 0 <= j < a.len() implies !#[trigger] stands_at(s, seq![c], j) by {
        if stands_at(s, seq![c], j) {
            assert(s.subrange(j, j + 1)[0] == s[j]);
            assert(a.contains(a[j]));
        }
    }
    law_split_at(a, seq![c], rest);
    assert(!has_part(a, seq![c])) by {
        if has_part(a, seq![c]) {
            let j = choose|j: int| #[trigger] stands_at(a, seq![c], j);
            assert(a.subrange(j, j + 1)[0] == a[j]);
            assert(a.contains(a[j]));
        }
    }
    law_unsplit(a, seq![c]);
}

/// The first piece of a text at a character goes up to the first of these characters, or to the end.
pub proof fn law_first_piece(s: Seq<char>, c: char)
    ensures
        piece(s, seq![c], 0) is Some,
        ({
            let first = piece(s, seq![c], 0)->0;
            &&& first.is_prefix_of(s)
            &&& !first.contains(c)
            &&& first.len() < s.len() ==> s[first.len() as int] == c
        }),
{
    let sep = seq![c];
    law_find(s, sep);
    lemma_find(s, sep);
    let first = piece(s, sep, 0)->0;
    if first.contains(c) {
        let j = choose|j: int| 0 <= j < first.len() && first[j] == c;
        assert(s.subrange(j, j + 1) =~= sep);
    }
    if let Some(i) = find(s, sep) {
        assert(s.subrange(i, i + 1)[0] == s[i]);
    }
}

/// White space is what these characters are.
pub proof fn law_white_space(c: char)
    ensures
        is_whitespace(c) <==> seq![
            '\t',
            '\n',
            '\u{b}',
            '\u{c}',
            '\r',
            ' ',
            '\u{85}',
            '\u{a0}',
            '\u{1680}',
            '\u{2000}',
            '\u{2001}',
            '\u{2002}',
            '\u{2003}',
            '\u{2004}',
            '\u{2005}',
            '\u{2006}',
            '\u{2007}',
            '\u{2008}',
            '\u{2009}',
            '\u{200a}',
            '\u{2028}',
            '\u{2029}',
            '\u{202f}',
            '\u{205f}',
            '\u{3000}',
        ].contains(c),
{
    let all = seq![
        '\t',
        '\n',
        '\u{b}',
        '\u{c}',
        '\r',
        ' ',
        '\u{85}',
        '\u{a0}',
        '\u{1680}',
        '\u{2000}',
        '\u{2001}',
        '\u{2002}',
        '\u{2003}',
        '\u{2004}',
        '\u{2005}',
        '\u{2006}',
        '\u{2007}',
        '\u{2008}',
        '\u{2009}',
        '\u{200a}',
        '\u{2028}',
        '\u{2029}',
        '\u{202f}',
        '\u{205f}',
        '\u{3000}',
    ];
    if is_whitespace(c) {
        assert(exists|i: int| 0 <= i < all.len() && all[i] == c) by {
            assert(all[0] == c || all[1] == c || all[2] == c || all[3] == c || all[4] == c || all[5]
                == c || all[6] == c || all[7] == c || all[8] == c || all[9] == c || all[10] == c
                || all[11] == c || all[12] == c || all[13] == c || all[14] == c || all[15] == c
                || all[16] == c || all[17] == c || all[18] == c || all[19] == c || all[20] == c
                || all[21] == c || all[22] == c || all[23] == c || all[24] == c);
        }
    }
}

/// The contents of optional texts are those of the texts.
pub proof fn law_optional_texts(a: Option<&str>, b: Option<String>, c: Option<&[char]>)
    ensures
        str_view(a) is Some <==> a is Some,
        a is Some ==> str_view(a) == Some(a->0@),
        string_view(b) is Some <==> b is Some,
        b is Some ==> string_view(b) == Some(b->0@),
        opt_view(c) is Some <==> c is Some,
        c is Some ==> opt_view(c) == Some(c->0@),
{
}

/// What stands before the first of a character, the whole text where it has none.
pub open spec fn upto(s: Seq<char>, c: char) -> Seq<char> {
    match s.index_of_first(c) {
        Some(i) => s.take(i),
        None => s,
    }
}

/// What stands behind the first of a character, if the text has one.
pub open spec fn past(s: Seq<char>, c: char) -> Option<Seq<char>> {
    match s.index_of_first(c) {
        Some(i) => Some(s.skip(i + 1)),
        None => None,
    }
}

/// The first two pieces of a text at a character: up to the first of it, and on to the next.
pub proof fn law_two_pieces(s: Seq<char>, c: char)
    ensures
        piece(s, seq![c], 0) == Some(upto(s, c)),
        piece(s, seq![c], 1) == match past(s, c) {
            Some(rest) => Some(upto(rest, c)),
            None => None,
        },
{
    lemma_two_pieces(s, c);
    if let Some(rest) = past(s, c) {
        lemma_two_pieces(rest, c);
    }
}

proof fn lemma_two_pieces(s: Seq<char>, c: char)
    ensures
        match past(s, c) {
            Some(rest) => split(s, seq![c]) == seq![upto(s, c)] + split(rest, seq![c]),
            None => split(s, seq![c]) == seq![upto(s, c)],
        },
        split(s, seq![c]).len() > 0,
        split(s, seq![c])[0] == upto(s, c),
{
    s.index_of_first_ensures(c);
    if let Some(i) = s.index_of_first(c) {
        let a = s.take(i);
        assert(!a.contains(c)) by {
            if a.contains(c) {
                let j = choose|j: int| 0 <= j < a.len() && a[j] == c;
                assert(s[j] == c);
            }
        }
        assert(s =~= a + seq![c] + s.skip(i + 1));
        law_split_at_char(a, c, s.skip(i + 1));
    } else {
        law_split_at_char(s, c, seq![]);
    }
}

} // verus!
