//! Text as sequences of characters: searching, splitting and trimming.
//!
//! The specification functions speak of `Seq<char>`, the view of `str` and `String`. The executable
//! functions work on slices of characters, so that a position is always a character position.

use vstd::prelude::*;
use vstd::slice::slice_subrange;

verus! {

/// `String::push` of std: the character is put behind what the string holds.
pub assume_specification[ String::push ](s: &mut String, c: char)
    ensures
        final(s)@ == old(s)@.push(c),
;

/// The characters of `s`.
pub fn chars_of(s: &str) -> (chars: Vec<char>)
    ensures
        chars@ == s@,
{
    let mut chars: Vec<char> = Vec::new();
    for c in it: s.chars()
        invariant
            it.seq() == s@,
            chars@ == s@.take(it.index()),
    {
        chars.push(c);
    }
    assert(s@.take(s@.len() as int) == s@);
    chars
}

/// The string made of `chars`.
pub fn string_of(chars: &[char]) -> (s: String)
    ensures
        s@ == chars@,
{
    let mut s = String::new();
    for i in 0..chars.len()
        invariant
            s@ == chars@.take(i as int),
    {
        s.push(chars[i]);
    }
    assert(chars@.take(chars@.len() as int) == chars@);
    s
}

/// Whether `pat` stands in `s` at position `i`.
pub open spec fn occurs_at(s: Seq<char>, pat: Seq<char>, i: int) -> bool {
    &&& 0 <= i
    &&& i + pat.len() <= s.len()
    &&& s.subrange(i, i + pat.len()) == pat
}

/// Whether `pat` stands anywhere in `s`.
pub open spec fn contains(s: Seq<char>, pat: Seq<char>) -> bool {
    exists|i: int| occurs_at(s, pat, i)
}

/// Whether `s` begins with `pat`.
pub open spec fn starts_with(s: Seq<char>, pat: Seq<char>) -> bool {
    occurs_at(s, pat, 0)
}

/// Whether `i` is the leftmost position at which `pat` stands in `s`.
pub open spec fn first_at(s: Seq<char>, pat: Seq<char>, i: int) -> bool {
    &&& occurs_at(s, pat, i)
    &&& forall|j: int| 0 <= j < i ==> !occurs_at(s, pat, j)
}

/// The leftmost position at which `pat` stands in `s`.
pub open spec fn find(s: Seq<char>, pat: Seq<char>) -> Option<int> {
    if contains(s, pat) {
        Some(choose|i: int| first_at(s, pat, i))
    } else {
        None
    }
}

/// There is a leftmost occurrence below any occurrence.
proof fn lemma_first_exists(s: Seq<char>, pat: Seq<char>, i: int) -> (first: int)
    requires
        occurs_at(s, pat, i),
    ensures
        first_at(s, pat, first),
    decreases i,
{
    if exists|j: int| 0 <= j < i && occurs_at(s, pat, j) {
        let j = choose|j: int| 0 <= j < i && occurs_at(s, pat, j);
        lemma_first_exists(s, pat, j)
    } else {
        i
    }
}

/// `find` gives the one leftmost occurrence, and gives it whenever there is an occurrence.
pub proof fn lemma_find(s: Seq<char>, pat: Seq<char>)
    ensures
        find(s, pat) matches Some(i) ==> first_at(s, pat, i),
        forall|i: int| #[trigger] first_at(s, pat, i) ==> find(s, pat) == Some(i),
{
    if contains(s, pat) {
        let i = choose|i: int| occurs_at(s, pat, i);
        let first = lemma_first_exists(s, pat, i);
        assert(first_at(s, pat, first));
    }
    assert forall|i: int| #[trigger] first_at(s, pat, i) implies find(s, pat) == Some(i) by {
        let k = choose|k: int| first_at(s, pat, k);
        assert(occurs_at(s, pat, i));
        assert(k == i);
    }
}

/// Tests whether `pat` stands in `s` at position `i`.
pub fn occurs(s: &[char], pat: &[char], i: usize) -> (b: bool)
    requires
        i <= s@.len(),
    ensures
        b == occurs_at(s@, pat@, i as int),
{
    let len: usize = s.len();
    if pat.len() > len - i {
        return false;
    }
    for k in 0..pat.len()
        invariant
            len == s@.len(),
            i + pat@.len() <= len,
            forall|j: int| 0 <= j < k ==> s@[i + j] == #[trigger] pat@[j],
    {
        if s[i + k] != pat[k] {
            assert(s@.subrange(i as int, i + pat@.len())[k as int] != pat@[k as int]);
            return false;
        }
    }
    assert(s@.subrange(i as int, i + pat@.len()) =~= pat@);
    true
}

/// The leftmost position at which `pat` stands in `s`.
pub fn find_chars(s: &[char], pat: &[char]) -> (pos: Option<usize>)
    ensures
        match pos {
            Some(i) => find(s@, pat@) == Some(i as int),
            None => find(s@, pat@) is None,
        },
{
    proof {
        lemma_find(s@, pat@);
    }
    for i in 0..s.len()
        invariant
            forall|j: int| 0 <= j < i ==> !occurs_at(s@, pat@, j),
            forall|i: int| #[trigger] first_at(s@, pat@, i) ==> find(s@, pat@) == Some(i),
    {
        if occurs(s, pat, i) {
            assert(first_at(s@, pat@, i as int));
            return Some(i);
        }
    }
    if occurs(s, pat, s.len()) {
        assert(first_at(s@, pat@, s@.len() as int));
        return Some(s.len());
    }
    None
}

/// Tests whether `s` contains `pat`.
pub fn str_contains(s: &str, pat: &str) -> (b: bool)
    ensures
        b == contains(s@, pat@),
{
    let s = chars_of(s);
    let pat = chars_of(pat);
    find_chars(s.as_slice(), pat.as_slice()).is_some()
}

/// Tests whether `s` begins with `pat`.
pub fn str_starts_with(s: &str, pat: &str) -> (b: bool)
    ensures
        b == starts_with(s@, pat@),
{
    let s = chars_of(s);
    let pat = chars_of(pat);
    occurs(s.as_slice(), pat.as_slice(), 0)
}

/// The pieces of `s` between the occurrences of the separator `sep`, left to right. A text without
/// the separator is its own and only piece.
pub open spec fn split(s: Seq<char>, sep: Seq<char>) -> Seq<Seq<char>>
    decreases s.len(),
{
    proof {
        lemma_find(s, sep);
    }
    match find(s, sep) {
        Some(i) => if sep.len() > 0 {
            seq![s.subrange(0, i)] + split(s.subrange(i + sep.len(), s.len() as int), sep)
        } else {
            seq![s]
        },
        None => seq![s],
    }
}

/// The piece of number `n` of a split, counted from 0.
pub open spec fn piece(s: Seq<char>, sep: Seq<char>, n: int) -> Option<Seq<char>> {
    if 0 <= n < split(s, sep).len() {
        Some(split(s, sep)[n])
    } else {
        None
    }
}

/// Every text has a first piece.
pub proof fn lemma_split_nonempty(s: Seq<char>, sep: Seq<char>)
    ensures
        split(s, sep).len() >= 1,
{
}

/// The view of an optional string slice.
pub open spec fn str_view(s: Option<&str>) -> Option<Seq<char>> {
    match s {
        Some(s) => Some(s@),
        None => None,
    }
}

/// The view of an optional string.
pub open spec fn string_view(s: Option<String>) -> Option<Seq<char>> {
    match s {
        Some(s) => Some(s@),
        None => None,
    }
}

/// The view of an optional piece of text.
pub open spec fn opt_view(s: Option<&[char]>) -> Option<Seq<char>> {
    match s {
        Some(s) => Some(s@),
        None => None,
    }
}

/// The piece of number `n` of the split of `s` at `sep`, counted from 0.
pub fn split_nth<'a>(s: &'a [char], sep: &[char], n: usize) -> (found: Option<&'a [char]>)
    requires
        sep@.len() > 0,
    ensures
        opt_view(found) == piece(s@, sep@, n as int),
{
    let mut rest: &'a [char] = s;
    let mut k: usize = 0;
    while k < n
        invariant
            k <= n,
            sep@.len() > 0,
            split(s@, sep@).len() == k + split(rest@, sep@).len(),
            forall|j: int|
                0 <= j < split(rest@, sep@).len() ==> split(s@, sep@)[k + j] == #[trigger] split(
                    rest@,
                    sep@,
                )[j],
        decreases n - k,
    {
        proof {
            lemma_find(rest@, sep@);
        }
        match find_chars(rest, sep) {
            None => {
                assert(split(rest@, sep@).len() == 1);
                return None;
            },
            Some(i) => {
                let ghost before = rest@;
                let len: usize = rest.len();
                rest = slice_subrange(rest, i + sep.len(), len);
                proof {
                    let tail = split(rest@, sep@);
                    assert(split(before, sep@) == seq![before.subrange(0, i as int)] + tail);
                    assert forall|j: int| 0 <= j < tail.len() implies split(s@, sep@)[k + 1 + j]
                        == #[trigger] tail[j] by {
                        assert(split(before, sep@)[j + 1] == tail[j]);
                    }
                }
            },
        }
        k = k + 1;
    }
    proof {
        lemma_find(rest@, sep@);
        assert(split(s@, sep@)[k + 0] == split(rest@, sep@)[0]);
    }
    match find_chars(rest, sep) {
        None => Some(rest),
        Some(i) => Some(slice_subrange(rest, 0, i)),
    }
}

/// Whether `c` has the Unicode property `White_Space`.
pub open spec fn is_whitespace(c: char) -> bool {
    let u = c as u32;
    ||| 0x9 <= u <= 0xd
    ||| u == 0x20
    ||| u == 0x85
    ||| u == 0xa0
    ||| u == 0x1680
    ||| 0x2000 <= u <= 0x200a
    ||| u == 0x2028
    ||| u == 0x2029
    ||| u == 0x202f
    ||| u == 0x205f
    ||| u == 0x3000
}

/// Tests whether `c` is white space.
pub fn char_is_whitespace(c: char) -> (b: bool)
    ensures
        b == is_whitespace(c),
{
    let u: u32 = c as u32;
    (0x9 <= u && u <= 0xd) || u == 0x20 || u == 0x85 || u == 0xa0 || u == 0x1680 || (0x2000 <= u && u
        <= 0x200a) || u == 0x2028 || u == 0x2029 || u == 0x202f || u == 0x205f || u == 0x3000
}

/// `s` without the white space it begins with.
pub open spec fn trim_start(s: Seq<char>) -> Seq<char>
    decreases s.len(),
{
    if s.len() > 0 && is_whitespace(s[0]) {
        trim_start(s.drop_first())
    } else {
        s
    }
}

/// `s` without the white space it ends with.
pub open spec fn trim_end(s: Seq<char>) -> Seq<char>
    decreases s.len(),
{
    if s.len() > 0 && is_whitespace(s.last()) {
        trim_end(s.drop_last())
    } else {
        s
    }
}

/// `s` without the white space at both ends.
pub open spec fn trim(s: Seq<char>) -> Seq<char> {
    trim_end(trim_start(s))
}

/// `s` without the white space at both ends.
pub fn trim_chars<'a>(s: &'a [char]) -> (t: &'a [char])
    ensures
        t@ == trim(s@),
{
    let mut t: &'a [char] = s;
    while t.len() > 0 && char_is_whitespace(t[0])
        invariant
            trim_start(t@) == trim_start(s@),
        decreases t@.len(),
    {
        let ghost before = t@;
        t = slice_subrange(t, 1, t.len());
        assert(t@ == before.drop_first());
    }
    while t.len() > 0 && char_is_whitespace(t[t.len() - 1])
        invariant
            trim_end(t@) == trim(s@),
        decreases t@.len(),
    {
        let ghost before = t@;
        t = slice_subrange(t, 0, t.len() - 1);
        assert(t@ == before.drop_last());
    }
    t
}

/// How many characters of `s` come before its first white space.
pub open spec fn word_len(s: Seq<char>) -> nat
    decreases s.len(),
{
    if s.len() == 0 || is_whitespace(s[0]) {
        0
    } else {
        1 + word_len(s.drop_first())
    }
}

/// A word is no longer than the text it begins.
pub proof fn lemma_word_len(s: Seq<char>)
    ensures
        word_len(s) <= s.len(),
    decreases s.len(),
{
    if s.len() > 0 {
        lemma_word_len(s.drop_first());
    }
}

/// The longest stretches of `s` without white space, left to right.
pub open spec fn words(s: Seq<char>) -> Seq<Seq<char>>
    decreases s.len(),
{
    proof {
        lemma_word_len(s);
    }
    if s.len() == 0 {
        seq![]
    } else if is_whitespace(s[0]) {
        words(s.drop_first())
    } else {
        let n = word_len(s) as int;
        seq![s.subrange(0, n)] + words(s.subrange(n, s.len() as int))
    }
}

/// The word of number `n`, counted from 0.
pub open spec fn word(s: Seq<char>, n: int) -> Option<Seq<char>> {
    if 0 <= n < words(s).len() {
        Some(words(s)[n])
    } else {
        None
    }
}

/// The number of characters before the first white space.
fn leading_word(s: &[char]) -> (n: usize)
    ensures
        n == word_len(s@),
        n <= s@.len(),
{
    let mut n: usize = 0;
    assert(s@.subrange(0, s@.len() as int) == s@);
    while n < s.len() && !char_is_whitespace(s[n])
        invariant
            n <= s@.len(),
            word_len(s@) == n + word_len(s@.subrange(n as int, s@.len() as int)),
        decreases s@.len() - n,
    {
        assert(s@.subrange(n as int, s@.len() as int).drop_first() == s@.subrange(
            n + 1,
            s@.len() as int,
        ));
        n = n + 1;
    }
    n
}

/// The word of number `n` of `s`, counted from 0.
pub fn nth_word<'a>(s: &'a [char], n: usize) -> (found: Option<&'a [char]>)
    ensures
        opt_view(found) == word(s@, n as int),
{
    let mut rest: &'a [char] = s;
    let mut k: usize = 0;
    while rest.len() > 0
        invariant
            k <= n,
            words(s@).len() == k + words(rest@).len(),
            forall|j: int|
                0 <= j < words(rest@).len() ==> words(s@)[k + j] == #[trigger] words(rest@)[j],
        decreases rest@.len(),
    {
        let ghost before = rest@;
        if char_is_whitespace(rest[0]) {
            rest = slice_subrange(rest, 1, rest.len());
            assert(rest@ == before.drop_first());
        } else {
            let len: usize = leading_word(rest);
            if k == n {
                assert(words(s@)[k + 0] == words(rest@)[0]);
                return Some(slice_subrange(rest, 0, len));
            }
            rest = slice_subrange(rest, len, rest.len());
            proof {
                let tail = words(rest@);
                assert(words(before) == seq![before.subrange(0, len as int)] + tail);
                assert forall|j: int| 0 <= j < tail.len() implies words(s@)[k + 1 + j]
                    == #[trigger] tail[j] by {
                    assert(words(before)[j + 1] == tail[j]);
                }
            }
            k = k + 1;
        }
    }
    None
}

/// A line without the carriage return before its line feed.
pub open spec fn strip_cr(line: Seq<char>) -> Seq<char> {
    if line.len() > 0 && line.last() == '\r' {
        line.drop_last()
    } else {
        line
    }
}

/// How many characters of `s` come before its first line feed.
pub open spec fn line_len(s: Seq<char>) -> nat
    decreases s.len(),
{
    if s.len() == 0 || s[0] == '\n' {
        0
    } else {
        1 + line_len(s.drop_first())
    }
}

/// A line is no longer than the text it begins.
pub proof fn lemma_line_len(s: Seq<char>)
    ensures
        line_len(s) <= s.len(),
    decreases s.len(),
{
    if s.len() > 0 {
        lemma_line_len(s.drop_first());
    }
}

/// The lines of `s`. A line ends at a line feed, which may have a carriage return before it and does
/// not belong to the line; the last line need not have one.
pub open spec fn lines(s: Seq<char>) -> Seq<Seq<char>>
    decreases s.len(),
{
    proof {
        lemma_line_len(s);
    }
    let n = line_len(s) as int;
    if s.len() == 0 {
        seq![]
    } else if n == s.len() {
        seq![s]
    } else {
        seq![strip_cr(s.subrange(0, n))] + lines(s.subrange(n + 1, s.len() as int))
    }
}

/// Line number `n` of a list of lines, counted from 0, empty where there is none.
pub open spec fn line_at(lines: Seq<Seq<char>>, n: int) -> Seq<char> {
    if 0 <= n < lines.len() {
        lines[n]
    } else {
        seq![]
    }
}

/// The contents of a vector of strings.
pub open spec fn views(v: Seq<String>) -> Seq<Seq<char>> {
    v.map_values(|s: String| s@)
}

/// The number of characters before the first line feed.
fn leading_line(s: &[char]) -> (n: usize)
    ensures
        n == line_len(s@),
        n <= s@.len(),
{
    let mut n: usize = 0;
    assert(s@.subrange(0, s@.len() as int) == s@);
    while n < s.len() && s[n] != '\n'
        invariant
            n <= s@.len(),
            line_len(s@) == n + line_len(s@.subrange(n as int, s@.len() as int)),
        decreases s@.len() - n,
    {
        assert(s@.subrange(n as int, s@.len() as int).drop_first() == s@.subrange(
            n + 1,
            s@.len() as int,
        ));
        n = n + 1;
    }
    n
}

/// The lines of `s`.
pub fn split_lines(s: &str) -> (found: Vec<String>)
    ensures
        views(found@) == lines(s@),
{
    let all = chars_of(s);
    let mut rest: &[char] = all.as_slice();
    let mut found: Vec<String> = Vec::new();
    assert(views(found@) + lines(rest@) == lines(s@));
    while rest.len() > 0
        invariant
            views(found@) + lines(rest@) == lines(s@),
        decreases rest@.len(),
    {
        let ghost before = rest@;
        let ghost had = found@;
        let total: usize = rest.len();
        let n: usize = leading_line(rest);
        if n == total {
            found.push(string_of(rest));
            rest = slice_subrange(rest, n, total);
            proof {
                assert(views(found@) == views(had).push(before));
                assert(lines(before) == seq![before]);
                assert(lines(rest@) == Seq::<Seq<char>>::empty());
                assert(views(found@) + lines(rest@) == views(had) + lines(before));
            }
        } else {
            let end: usize = if n > 0 && rest[n - 1] == '\r' {
                n - 1
            } else {
                n
            };
            let line = slice_subrange(rest, 0, end);
            assert(line@ == strip_cr(before.subrange(0, n as int)));
            found.push(string_of(line));
            rest = slice_subrange(rest, n + 1, total);
            proof {
                assert(views(found@) == views(had).push(line@));
                assert(lines(before) == seq![line@] + lines(rest@));
                assert(views(found@) + lines(rest@) == views(had) + lines(before));
            }
        }
    }
    assert(lines(rest@) == Seq::<Seq<char>>::empty());
    found
}

/// The line of number `n` of `content`, counted from 0. A missing line reads as empty.
pub fn read_nth_line(content: &str, n: usize) -> (line: String)
    ensures
        line@ == line_at(lines(content@), n as int),
{
    let mut found = split_lines(content);
    if n < found.len() {
        assert(views(found@)[n as int] == found@[n as int]@);
        found.swap_remove(n)
    } else {
        String::new()
    }
}

/// The character of a digit below 16, with letters in lower case.
pub open spec fn digit(d: int) -> char {
    if d < 10 {
        (48 + d) as char
    } else {
        (87 + d) as char
    }
}

/// The decimal notation of `n`.
pub open spec fn decimal(n: nat) -> Seq<char>
    decreases n,
{
    if n < 10 {
        seq![digit(n as int)]
    } else {
        decimal(n / 10).push(digit((n % 10) as int))
    }
}

/// The hexadecimal notation of `n` in lower case.
pub open spec fn hexadecimal(n: nat) -> Seq<char>
    decreases n,
{
    if n < 16 {
        seq![digit(n as int)]
    } else {
        hexadecimal(n / 16).push(digit((n % 16) as int))
    }
}

/// The character of a digit below 16.
fn digit_char(d: u8) -> (c: char)
    requires
        d < 16,
    ensures
        c == digit(d as int),
{
    if d < 10 {
        (48 + d) as char
    } else {
        (87 + d) as char
    }
}

/// Appends the decimal notation of `n`.
pub fn push_decimal(out: &mut String, n: u64)
    ensures
        final(out)@ == old(out)@ + decimal(n as nat),
    decreases n,
{
    if n >= 10 {
        push_decimal(out, n / 10);
    }
    out.push(digit_char((n % 10) as u8));
}

/// Appends the hexadecimal notation of `n`.
pub fn push_hexadecimal(out: &mut String, n: u64)
    ensures
        final(out)@ == old(out)@ + hexadecimal(n as nat),
    decreases n,
{
    if n >= 16 {
        push_hexadecimal(out, n / 16);
    }
    out.push(digit_char((n % 16) as u8));
}

} // verus!
