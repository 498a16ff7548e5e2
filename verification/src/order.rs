//! The orders in which reports list what they hold: strings by their UTF-8 bytes, integers by value.

use std::collections::BTreeMap;
use vstd::laws_cmp::obeys_cmp;
use vstd::prelude::*;
use vstd::std_specs::cmp::OrdSpec;
use vstd::std_specs::iter::IteratorSpec;
use vstd::relations::{sorted_by, total_ordering};
use vstd::utf8::{encode_scalar, encode_utf8};

verus! {

broadcast use vstd::std_specs::btree::group_btree_axioms;

/// The lexicographic order of lists of numbers.
pub open spec fn lex_le(a: Seq<int>, b: Seq<int>) -> bool
    decreases a.len(),
{
    if a.len() == 0 {
        true
    } else if b.len() == 0 {
        false
    } else if a[0] != b[0] {
        a[0] < b[0]
    } else {
        lex_le(a.drop_first(), b.drop_first())
    }
}

/// The values of bytes.
pub open spec fn byte_values(bytes: Seq<u8>) -> Seq<int> {
    bytes.map_values(|byte: u8| byte as int)
}

/// The order of strings: lexicographic by the bytes of their UTF-8 encoding.
pub open spec fn str_le(a: Seq<char>, b: Seq<char>) -> bool {
    lex_le(byte_values(encode_utf8(a)), byte_values(encode_utf8(b)))
}

proof fn lemma_lex_reflexive(a: Seq<int>)
    ensures
        lex_le(a, a),
    decreases a.len(),
{
    if a.len() > 0 {
        lemma_lex_reflexive(a.drop_first());
    }
}

/// Two lists of numbers of which each comes before the other are the same.
pub proof fn lemma_lex_antisymmetric(a: Seq<int>, b: Seq<int>)
    requires
        lex_le(a, b),
        lex_le(b, a),
    ensures
        a == b,
    decreases a.len(),
{
    if a.len() == 0 || b.len() == 0 {
        assert(a =~= b);
    } else {
        lemma_lex_antisymmetric(a.drop_first(), b.drop_first());
        assert(a =~= seq![a[0]] + a.drop_first());
        assert(b =~= seq![b[0]] + b.drop_first());
    }
}

/// The order of lists of numbers is transitive.
pub proof fn lemma_lex_transitive(a: Seq<int>, b: Seq<int>, c: Seq<int>)
    requires
        lex_le(a, b),
        lex_le(b, c),
    ensures
        lex_le(a, c),
    decreases a.len(),
{
    if a.len() > 0 && b.len() > 0 && c.len() > 0 && a[0] == b[0] && b[0] == c[0] {
        lemma_lex_transitive(a.drop_first(), b.drop_first(), c.drop_first());
    }
}

/// Of two lists of numbers one comes first.
pub proof fn lemma_lex_total(a: Seq<int>, b: Seq<int>)
    ensures
        lex_le(a, b) || lex_le(b, a),
    decreases a.len(),
{
    if a.len() > 0 && b.len() > 0 && a[0] == b[0] {
        lemma_lex_total(a.drop_first(), b.drop_first());
    }
}

/// Two strings with the same bytes are the same string.
pub proof fn lemma_encoding_injective(a: Seq<char>, b: Seq<char>)
    ensures
        encode_utf8(a) == encode_utf8(b) <==> a == b,
{
    vstd::utf8::encode_utf8_decode_utf8(a);
    vstd::utf8::encode_utf8_decode_utf8(b);
}

/// Byte strings with the same values are the same.
proof fn lemma_values_injective(a: Seq<u8>, b: Seq<u8>)
    requires
        byte_values(a) == byte_values(b),
    ensures
        a == b,
{
    assert(a.len() == byte_values(a).len() && b.len() == byte_values(b).len());
    assert forall|i: int| 0 <= i < a.len() implies #[trigger] a[i] == b[i] by {
        assert(byte_values(a)[i] == a[i] as int);
        assert(byte_values(b)[i] == b[i] as int);
    }
    assert(a =~= b);
}

/// Two strings of which each comes before the other are the same.
pub proof fn lemma_str_antisymmetric(a: Seq<char>, b: Seq<char>)
    requires
        str_le(a, b),
        str_le(b, a),
    ensures
        a == b,
{
    lemma_lex_antisymmetric(byte_values(encode_utf8(a)), byte_values(encode_utf8(b)));
    lemma_values_injective(encode_utf8(a), encode_utf8(b));
    lemma_encoding_injective(a, b);
}

/// `str_le` is a total order.
pub proof fn lemma_str_order()
    ensures
        total_ordering(|a: Seq<char>, b: Seq<char>| str_le(a, b)),
{
    let leq = |a: Seq<char>, b: Seq<char>| str_le(a, b);
    assert forall|a: Seq<char>| #[trigger] leq(a, a) by {
        lemma_lex_reflexive(byte_values(encode_utf8(a)));
    }
    assert forall|a: Seq<char>, b: Seq<char>| #[trigger] leq(a, b) && #[trigger] leq(b, a) implies a
        == b by {
        lemma_str_antisymmetric(a, b);
    }
    assert forall|a: Seq<char>, b: Seq<char>, c: Seq<char>| #[trigger]
        leq(a, b) && #[trigger] leq(b, c) implies leq(a, c) by {
        lemma_str_transitive(a, b, c);
    }
    assert forall|a: Seq<char>, b: Seq<char>| #[trigger] leq(a, b) || #[trigger] leq(b, a) by {
        lemma_str_total(a, b);
    }
}

/// The order of strings is transitive, and strict where one of two steps is.
pub proof fn lemma_str_transitive(a: Seq<char>, b: Seq<char>, c: Seq<char>)
    requires
        str_le(a, b),
        str_le(b, c),
    ensures
        str_le(a, c),
        a == c ==> a == b,
{
    lemma_lex_transitive(
        byte_values(encode_utf8(a)),
        byte_values(encode_utf8(b)),
        byte_values(encode_utf8(c)),
    );
    if a == c {
        lemma_str_antisymmetric(a, b);
    }
}

/// Of two strings one comes first.
pub proof fn lemma_str_total(a: Seq<char>, b: Seq<char>)
    ensures
        str_le(a, b) || str_le(b, a),
{
    lemma_lex_total(byte_values(encode_utf8(a)), byte_values(encode_utf8(b)));
}

/// The first byte of a string that is not empty: an ASCII character stands for itself, and any other
/// begins with a byte beyond these.
pub proof fn lemma_first_byte(s: Seq<char>)
    requires
        s.len() > 0,
    ensures
        ({
            let values = byte_values(encode_utf8(s));
            &&& values.len() > 0
            &&& (s[0] as u32) < 0x80 ==> values[0] == s[0] as u32 && values.drop_first()
                == byte_values(encode_utf8(s.drop_first()))
            &&& (s[0] as u32) >= 0x80 ==> values[0] >= 0x80
        }),
{
    let c = s[0] as u32;
    let bytes = encode_utf8(s);
    vstd::utf8::char_is_scalar(s[0]);
    assert(c < 0x80 ==> (c & 0x7f) as u8 == c) by (bit_vector);
    assert(0xc0u8 | ((c >> 6) & 0x1f) as u8 >= 0x80) by (bit_vector);
    assert(0xe0u8 | ((c >> 12) & 0x0f) as u8 >= 0x80) by (bit_vector);
    assert(0xf0u8 | ((c >> 18) & 0x7) as u8 >= 0x80) by (bit_vector);
    assert(bytes[0] == encode_scalar(c)[0]);
    assert(byte_values(bytes)[0] == bytes[0]);
    if c < 0x80 {
        assert(bytes.drop_first() =~= encode_utf8(s.drop_first()));
        assert(byte_values(bytes).drop_first() =~= byte_values(bytes.drop_first()));
    }
}

/// How one string stands to another in the order of strings.
#[derive(Clone, Copy, PartialEq, Eq, Structural)]
pub enum Rank {
    Before,
    Same,
    After,
}

/// Where `a` stands to `b` in the order of strings.
pub fn rank(a: &str, b: &str) -> (r: Rank)
    ensures
        match r {
            Rank::Before => str_le(a@, b@) && a@ != b@,
            Rank::Same => a@ == b@,
            Rank::After => str_le(b@, a@) && a@ != b@,
        },
{
    let x: &[u8] = a.as_bytes();
    let y: &[u8] = b.as_bytes();
    proof {
        lemma_encoding_injective(a@, b@);
    }
    let mut i: usize = 0;
    let ghost xs = byte_values(x@);
    let ghost ys = byte_values(y@);
    assert(xs.skip(0) == xs && ys.skip(0) == ys);
    while i < x.len() && i < y.len()
        invariant
            i <= x@.len(),
            i <= y@.len(),
            x@ == encode_utf8(a@),
            y@ == encode_utf8(b@),
            xs == byte_values(x@),
            ys == byte_values(y@),
            x@.take(i as int) == y@.take(i as int),
            lex_le(xs, ys) == lex_le(xs.skip(i as int), ys.skip(i as int)),
            lex_le(ys, xs) == lex_le(ys.skip(i as int), xs.skip(i as int)),
            x@ == y@ <==> a@ == b@,
        decreases x@.len() - i,
    {
        assert(xs.skip(i as int)[0] == x@[i as int] && ys.skip(i as int)[0] == y@[i as int]);
        if x[i] < y[i] {
            assert(x@[i as int] != y@[i as int]);
            return Rank::Before;
        }
        if x[i] > y[i] {
            assert(x@[i as int] != y@[i as int]);
            return Rank::After;
        }
        proof {
            assert(xs.skip(i as int).drop_first() == xs.skip(i + 1));
            assert(ys.skip(i as int).drop_first() == ys.skip(i + 1));
            assert(x@.take(i + 1) == x@.take(i as int).push(x@[i as int]));
            assert(y@.take(i + 1) == y@.take(i as int).push(y@[i as int]));
        }
        i = i + 1;
    }
    if x.len() == y.len() {
        assert(x@.take(i as int) == x@ && y@.take(i as int) == y@);
        Rank::Same
    } else if x.len() < y.len() {
        assert(xs.skip(i as int).len() == 0);
        Rank::Before
    } else {
        assert(ys.skip(i as int).len() == 0);
        Rank::After
    }
}

/// Tests whether two strings are the same.
pub fn str_same(a: &str, b: &str) -> (same: bool)
    ensures
        same == (a@ == b@),
{
    rank(a, b) == Rank::Same
}

proof fn lemma_to_seq_distinct<A>(s: Set<A>)
    requires
        s.finite(),
    ensures
        s.to_seq().no_duplicates(),
        s.to_seq().to_set() == s,
    decreases s.len(),
{
    s.lemma_to_seq_to_set_id();
    if s.len() > 0 {
        let x = s.choose();
        let rest = s.remove(x);
        lemma_to_seq_distinct(rest);
        assert(s.to_seq() == Seq::<A>::empty().push(x) + rest.to_seq());
        assert forall|i: int, j: int|
            0 <= i < s.to_seq().len() && 0 <= j < s.to_seq().len() && i != j implies s.to_seq()[i]
            != s.to_seq()[j] by {
            if i == 0 || j == 0 {
                let k = if i == 0 {
                    j
                } else {
                    i
                };
                assert(rest.to_seq()[k - 1] == s.to_seq()[k]);
                assert(rest.to_seq().to_set().contains(s.to_seq()[k]));
                assert(rest.contains(s.to_seq()[k]));
            } else {
                assert(rest.to_seq()[i - 1] == s.to_seq()[i]);
                assert(rest.to_seq()[j - 1] == s.to_seq()[j]);
            }
        }
    }
}

/// Two sequences without repetition that hold the same elements have the same multiset.
proof fn lemma_distinct_multiset<A>(x: Seq<A>, y: Seq<A>)
    requires
        x.no_duplicates(),
        y.no_duplicates(),
        x.to_set() == y.to_set(),
    ensures
        x.to_multiset() == y.to_multiset(),
{
    x.lemma_multiset_has_no_duplicates();
    y.lemma_multiset_has_no_duplicates();
    x.to_multiset_ensures();
    y.to_multiset_ensures();
    assert forall|a: A| x.to_multiset().count(a) == y.to_multiset().count(a) by {
        assert(x.contains(a) <==> x.to_set().contains(a));
        assert(y.contains(a) <==> y.to_set().contains(a));
        assert(x.to_multiset().contains(a) ==> x.to_multiset().count(a) == 1);
        assert(y.to_multiset().contains(a) ==> y.to_multiset().count(a) == 1);
    }
    assert(x.to_multiset() =~= y.to_multiset());
}

/// The sorted listing of a finite set holds its elements, each once, in order.
pub proof fn lemma_listing<A>(s: Set<A>, leq: spec_fn(A, A) -> bool)
    requires
        s.finite(),
        total_ordering(leq),
    ensures
        sorted_by(s.to_sorted_seq(leq), leq),
        s.to_sorted_seq(leq).no_duplicates(),
        s.to_sorted_seq(leq).to_set() == s,
{
    lemma_to_seq_distinct(s);
    let x = s.to_seq();
    let y = s.to_sorted_seq(leq);
    x.lemma_sort_by_ensures(leq);
    x.lemma_multiset_has_no_duplicates();
    x.to_multiset_ensures();
    y.to_multiset_ensures();
    y.lemma_multiset_has_no_duplicates_conv();
    assert forall|a: A| y.to_set().contains(a) == s.contains(a) by {
        assert(x.contains(a) <==> x.to_multiset().count(a) > 0);
        assert(y.contains(a) <==> y.to_multiset().count(a) > 0);
        assert(x.to_set().contains(a) <==> x.contains(a));
    }
    assert(y.to_set() =~= s);
}

/// A sequence that holds the elements of a set, each once and in order, is its sorted listing.
pub proof fn lemma_listing_unique<A>(x: Seq<A>, s: Set<A>, leq: spec_fn(A, A) -> bool)
    requires
        s.finite(),
        total_ordering(leq),
        sorted_by(x, leq),
        x.no_duplicates(),
        x.to_set() == s,
    ensures
        x == s.to_sorted_seq(leq),
{
    let y = s.to_sorted_seq(leq);
    lemma_listing(s, leq);
    lemma_distinct_multiset(x, y);
    vstd::seq_lib::lemma_sorted_unique(x, y, leq);
}

/// The elements of a set of addresses in ascending order.
pub open spec fn ascending(s: Set<u64>) -> Seq<u64> {
    s.to_sorted_seq(|a: u64, b: u64| a <= b)
}

/// The elements of a set of line numbers in ascending order.
pub open spec fn ascending_lines(s: Set<u32>) -> Seq<u32> {
    s.to_sorted_seq(|a: u32, b: u32| a <= b)
}

/// The strings of a set in the order of strings.
pub open spec fn ascending_strings(s: Set<Seq<char>>) -> Seq<Seq<char>> {
    s.to_sorted_seq(|a: Seq<char>, b: Seq<char>| str_le(a, b))
}

/// Whether the pairs are the contents of a map, each once.
spec fn is_walk<K, V>(pairs: Seq<(K, &V)>, m: Map<K, V>) -> bool {
    &&& forall|i: int|
        0 <= i < pairs.len() ==> m.contains_key((#[trigger] pairs[i]).0) && *pairs[i].1
            == m[pairs[i].0]
    &&& forall|k: K| #[trigger]
        m.contains_key(k) ==> exists|i: int| 0 <= i < pairs.len() && (#[trigger] pairs[i]).0 == k
}

/// Walks a map.
fn walk<'m, K: Copy + Ord, V>(m: &'m BTreeMap<K, V>) -> (pairs: Vec<(K, &'m V)>)
    requires
        obeys_cmp::<K>(),
    ensures
        is_walk(pairs@, m@),
        forall|i: int, j: int|
            0 <= i < j < pairs@.len() ==> OrdSpec::cmp_spec(
                &(#[trigger] pairs@[i]).0,
                &(#[trigger] pairs@[j]).0,
            ) is Less,
{
    let mut pairs: Vec<(K, &'m V)> = Vec::new();
    let iter = m.iter();
    let ghost items = IteratorSpec::remaining(&iter);
    for (k, v) in it: iter
        invariant
            it.seq() == items,
            pairs@.len() == it.index(),
            forall|i: int|
                0 <= i < pairs@.len() ==> (#[trigger] pairs@[i]).0 == *it.seq()[i].0 && pairs@[i].1
                    == it.seq()[i].1,
    {
        pairs.push((*k, v));
    }
    proof {
        let keys = items.map_values(|kv: (&K, &V)| *kv.0);
        assert(vstd::std_specs::btree::increasing_seq(keys));
        assert forall|i: int, j: int| 0 <= i < j < pairs@.len() implies OrdSpec::cmp_spec(
            &(#[trigger] pairs@[i]).0,
            &(#[trigger] pairs@[j]).0,
        ) is Less by {
            assert(OrdSpec::cmp_spec(&keys[i], &keys[j]) is Less);
        }
        assert forall|k: K| #[trigger] m@.contains_key(k) implies exists|i: int|
            0 <= i < pairs@.len() && (#[trigger] pairs@[i]).0 == k by {
            let i = choose|i: int| 0 <= i < items.len() && items[i] == (&k, &m@[k]);
            assert(pairs@[i].0 == k);
        }
    }
    pairs
}

/// The contents of a map that were walked in ascending order come in the order of the sorted listing
/// of its keys.
proof fn lemma_walk<K, V>(pairs: Seq<(K, &V)>, m: Map<K, V>, leq: spec_fn(K, K) -> bool)
    requires
        m.dom().finite(),
        total_ordering(leq),
        is_walk(pairs, m),
        forall|i: int, j: int|
            0 <= i < j < pairs.len() ==> leq((#[trigger] pairs[i]).0, (#[trigger] pairs[j]).0)
                && pairs[i].0 != pairs[j].0,
    ensures
        pairs.len() == m.dom().to_sorted_seq(leq).len(),
        forall|i: int|
            0 <= i < pairs.len() ==> (#[trigger] pairs[i]).0 == m.dom().to_sorted_seq(leq)[i],
{
    let keys = pairs.map_values(|pair: (K, &V)| pair.0);
    assert forall|k: K| m.contains_key(k) implies keys.to_set().contains(k) by {
        let i = choose|i: int| 0 <= i < pairs.len() && (#[trigger] pairs[i]).0 == k;
        assert(keys[i] == k);
    }
    assert forall|i: int, j: int| 0 <= i < j < keys.len() implies leq(
        #[trigger] keys[i],
        #[trigger] keys[j],
    ) && keys[i] != keys[j] by {
        assert(leq(pairs[i].0, pairs[j].0));
    }
    assert(keys.to_set() =~= m.dom());
    assert(sorted_by(keys, leq));
    lemma_listing_unique(keys, m.dom(), leq);
}

/// The contents of a map of addresses in ascending order.
pub fn listed<'m, V>(m: &'m BTreeMap<u64, V>) -> (pairs: Vec<(u64, &'m V)>)
    ensures
        pairs@.len() == ascending(m@.dom()).len(),
        forall|i: int|
            0 <= i < pairs@.len() ==> {
                &&& (#[trigger] pairs@[i]).0 == ascending(m@.dom())[i]
                &&& m@.contains_key(pairs@[i].0)
                &&& *pairs@[i].1 == m@[pairs@[i].0]
            },
{
    let pairs = walk(m);
    proof {
        lemma_walk(pairs@, m@, |a: u64, b: u64| a <= b);
    }
    pairs
}

/// The contents of a map of line numbers in ascending order.
pub fn listed_lines<'m, V>(m: &'m BTreeMap<u32, V>) -> (pairs: Vec<(u32, &'m V)>)
    ensures
        pairs@.len() == ascending_lines(m@.dom()).len(),
        forall|i: int|
            0 <= i < pairs@.len() ==> {
                &&& (#[trigger] pairs@[i]).0 == ascending_lines(m@.dom())[i]
                &&& m@.contains_key(pairs@[i].0)
                &&& *pairs@[i].1 == m@[pairs@[i].0]
            },
{
    let pairs = walk(m);
    proof {
        lemma_walk(pairs@, m@, |a: u32, b: u32| a <= b);
    }
    pairs
}

} // verus!
