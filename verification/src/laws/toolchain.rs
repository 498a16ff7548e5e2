//! Laws of compilers, toolchains and local paths.

use crate::dwarf::DebugPath;
use crate::laws::text::{
    has_part, is_word, law_contains_parts, law_find_first, law_first_piece, law_split_at,
    law_split_at_char, law_starts_with, law_two_pieces, law_unsplit, law_words, past, stands_at,
    upto,
};
use crate::text::{
    find, lemma_find, lines, piece, split, str_view, string_view, views, words,
};
use crate::toolchain::{
    bracketed_hash, compiler_of, compiler_view, is_candidate, is_latest, is_match,
    is_rust_producer, is_toolchain, is_version, latest_first, listed_hash, mapped_path, rust_line,
    toolchain_text, toolchain_view, tools_views, Compiler, CompilerModel, PlatformTools,
};
use crate::version::version_le;
use vstd::prelude::*;

verus! {

proof fn lemma_rust_line(lines: Seq<Seq<char>>, k: int, i: int)
    requires
        0 <= k <= i < lines.len(),
        has_part(lines[i], "rust.git"@),
        forall|j: int| 0 <= j < i ==> !has_part(#[trigger] lines[j], "rust.git"@),
    ensures
        rust_line(lines, k) == Some(lines[i]),
    decreases i - k,
{
    law_contains_parts(lines[k], "rust.git"@);
    if k < i {
        lemma_rust_line(lines, k + 1, i);
    }
}

proof fn lemma_no_rust_line(lines: Seq<Seq<char>>, k: int)
    requires
        0 <= k <= lines.len(),
        forall|j: int| 0 <= j < lines.len() ==> !has_part(#[trigger] lines[j], "rust.git"@),
    ensures
        rust_line(lines, k) is None,
    decreases lines.len() - k,
{
    if k < lines.len() {
        law_contains_parts(lines[k], "rust.git"@);
        lemma_no_rust_line(lines, k + 1);
    }
}

/// Whether `hash` is what stands before the first space of `line`.
pub open spec fn is_before_space(line: Seq<char>, hash: Seq<char>) -> bool {
    &&& hash.is_prefix_of(line)
    &&& !hash.contains(' ')
    &&& hash.len() < line.len() ==> line[hash.len() as int] == ' '
}

/// The commit hash of the compiler is what stands before the first space of the first line that names
/// its repository, whichever line that is.
pub proof fn law_listed_hash(content: Seq<char>, i: int)
    requires
        0 <= i < lines(content).len(),
        has_part(lines(content)[i], "rust.git"@),
        forall|j: int| 0 <= j < i ==> !has_part(#[trigger] lines(content)[j], "rust.git"@),
    ensures
        listed_hash(Some(content)) is Some,
        is_before_space(lines(content)[i], listed_hash(Some(content))->0),
{
    lemma_rust_line(lines(content), 0, i);
    reveal_strlit(" ");
    assert(" "@ =~= seq![' ']);
    law_first_piece(lines(content)[i], ' ');
}

/// No commit hash is listed only where there is no list, or where no line of it names the repository.
pub proof fn law_no_listed_hash(version_file: Option<Seq<char>>)
    ensures
        listed_hash(version_file) is None <==> match version_file {
            Some(content) => forall|i: int|
                0 <= i < lines(content).len() ==> !has_part(
                    #[trigger] lines(content)[i],
                    "rust.git"@,
                ),
            None => true,
        },
{
    if let Some(content) = version_file {
        let all = lines(content);
        if forall|i: int| 0 <= i < all.len() ==> !has_part(#[trigger] all[i], "rust.git"@) {
            lemma_no_rust_line(all, 0);
        } else {
            let i = choose|i: int| 0 <= i < all.len() && has_part(#[trigger] all[i], "rust.git"@);
            let first = lemma_first_rust_line(all, i);
            law_listed_hash(content, first);
        }
    }
}

proof fn lemma_first_rust_line(lines: Seq<Seq<char>>, i: int) -> (first: int)
    requires
        0 <= i < lines.len(),
        has_part(lines[i], "rust.git"@),
    ensures
        0 <= first <= i,
        has_part(lines[first], "rust.git"@),
        forall|j: int| 0 <= j < first ==> !has_part(#[trigger] lines[j], "rust.git"@),
    decreases i,
{
    if exists|j: int| 0 <= j < i && has_part(#[trigger] lines[j], "rust.git"@) {
        let j = choose|j: int| 0 <= j < i && has_part(#[trigger] lines[j], "rust.git"@);
        lemma_first_rust_line(lines, j)
    } else {
        i
    }
}

/// Whether `hash` is the commit hash that the file lists for the compiler.
pub open spec fn lists_hash(content: Seq<char>, hash: Seq<char>) -> bool {
    exists|i: int|
        {
            &&& 0 <= i < lines(content).len()
            &&& has_part(#[trigger] lines(content)[i], "rust.git"@)
            &&& forall|j: int| 0 <= j < i ==> !has_part(#[trigger] lines(content)[j], "rust.git"@)
            &&& is_before_space(lines(content)[i], hash)
        }
}

/// A text has one stretch before its first space.
proof fn lemma_before_space_is_unique(line: Seq<char>, a: Seq<char>, b: Seq<char>)
    requires
        is_before_space(line, a),
        is_before_space(line, b),
    ensures
        a == b,
{
    if a.len() < b.len() {
        assert(b[a.len() as int] == line[a.len() as int]);
        assert(b.contains(b[a.len() as int]));
    } else if b.len() < a.len() {
        assert(a[b.len() as int] == line[b.len() as int]);
        assert(a.contains(a[b.len() as int]));
    }
    assert(a =~= b);
}

/// The listed hash is the one that the file lists.
proof fn lemma_lists_hash(content: Seq<char>, hash: Seq<char>)
    ensures
        lists_hash(content, hash) <==> listed_hash(Some(content)) == Some(hash),
{
    let all = lines(content);
    if lists_hash(content, hash) {
        let i = choose|i: int|
            {
                &&& 0 <= i < lines(content).len()
                &&& has_part(#[trigger] lines(content)[i], "rust.git"@)
                &&& forall|j: int|
                    0 <= j < i ==> !has_part(#[trigger] lines(content)[j], "rust.git"@)
                &&& is_before_space(lines(content)[i], hash)
            };
        law_listed_hash(content, i);
        lemma_before_space_is_unique(all[i], hash, listed_hash(Some(content))->0);
    }
    if listed_hash(Some(content)) == Some(hash) {
        law_no_listed_hash(Some(content));
        let i = choose|i: int| 0 <= i < all.len() && has_part(#[trigger] all[i], "rust.git"@);
        let first = lemma_first_rust_line(all, i);
        law_listed_hash(content, first);
        assert(has_part(lines(content)[first], "rust.git"@));
    }
}

/// Whether installed tools fit a program: their compiler runs and names the version, and where the
/// tools list the commit hash of the compiler, it begins with the one that the program names, if any.
pub open spec fn tools_fit(
    tools: PlatformTools,
    rustc_version: Seq<char>,
    commit_hash: Option<Seq<char>>,
) -> bool {
    &&& tools.rustc_version is Some
    &&& has_part(tools.rustc_version->0@, rustc_version)
    &&& tools.version_file is Some && commit_hash is Some ==> forall|hash: Seq<char>|
        #[trigger] lists_hash(tools.version_file->0@, hash) ==> commit_hash->0.is_prefix_of(hash)
}

/// Tools match a program exactly when they fit it.
pub proof fn law_tools_match(
    tools: PlatformTools,
    rustc_version: Seq<char>,
    commit_hash: Option<Seq<char>>,
)
    ensures
        is_match(tools@, rustc_version, commit_hash) <==> tools_fit(
            tools,
            rustc_version,
            commit_hash,
        ),
{
    if tools.rustc_version is Some {
        law_contains_parts(tools.rustc_version->0@, rustc_version);
        if tools.version_file is Some && commit_hash is Some {
            let content = tools.version_file->0@;
            assert forall|hash: Seq<char>|
                #[trigger] lists_hash(content, hash) <==> listed_hash(Some(content)) == Some(
                    hash,
                ) by {
                lemma_lists_hash(content, hash);
            }
            if listed_hash(Some(content)) is Some {
                assert(lists_hash(content, listed_hash(Some(content))->0));
                law_starts_with(listed_hash(Some(content))->0, commit_hash->0);
            }
        }
    }
}

/// Whether the name of a directory begins with the letter of versions.
pub open spec fn names_version(name: Seq<char>) -> bool {
    name.len() > 0 && name[0] == 'v'
}

/// The names of versions are those with the letter.
pub proof fn law_version_names(name: Seq<char>)
    ensures
        is_version(name) <==> names_version(name),
{
    reveal_strlit("v");
    assert("v"@ =~= seq!['v']);
    if name.len() > 0 {
        assert(name.subrange(0, 1) =~= seq![name[0]]);
        if is_version(name) {
            assert(name.subrange(0, 1)[0] == 'v');
        }
    }
}

/// The version of the platform tools that is given for a program is that of installed tools that lie in
/// a directory of a version and fit the program, and no such tools have a later version. None is given
/// only where no installed tools are such.
pub proof fn law_latest_tools(
    installed: Seq<PlatformTools>,
    rustc_version: Seq<char>,
    commit_hash: Option<Seq<char>>,
    version: Option<String>,
)
    requires
        is_latest(tools_views(installed), rustc_version, commit_hash, string_view(version)),
    ensures
        version is Some ==> exists|i: int|
            0 <= i < installed.len() && (#[trigger] installed[i]).version@ == version->0@
                && names_version(installed[i].version@) && tools_fit(
                installed[i],
                rustc_version,
                commit_hash,
            ),
        version is Some ==> forall|i: int|
            0 <= i < installed.len() && names_version((#[trigger] installed[i]).version@)
                && tools_fit(installed[i], rustc_version, commit_hash) ==> version_le(
                installed[i].version@,
                version->0@,
            ),
        version is None ==> forall|i: int|
            0 <= i < installed.len() && names_version((#[trigger] installed[i]).version@)
                ==> !tools_fit(installed[i], rustc_version, commit_hash),
{
    let models = tools_views(installed);
    assert forall|i: int| 0 <= i < installed.len() implies (is_candidate(
        #[trigger] models[i],
        rustc_version,
        commit_hash,
    ) <==> names_version(installed[i].version@) && tools_fit(
        installed[i],
        rustc_version,
        commit_hash,
    )) && models[i].version == installed[i].version@ by {
        assert(models[i] == installed[i]@);
        law_version_names(installed[i].version@);
        law_tools_match(installed[i], rustc_version, commit_hash);
    }
    if version is Some {
        let i = choose|i: int|
            0 <= i < models.len() && (#[trigger] models[i]).version == version->0@ && is_candidate(
                models[i],
                rustc_version,
                commit_hash,
            );
        assert(installed[i].version@ == version->0@);
        assert forall|i: int|
            0 <= i < installed.len() && names_version((#[trigger] installed[i]).version@)
                && tools_fit(installed[i], rustc_version, commit_hash) implies version_le(
            installed[i].version@,
            version->0@,
        ) by {
            assert(is_candidate(models[i], rustc_version, commit_hash));
        }
    } else {
        assert forall|i: int|
            0 <= i < installed.len() && names_version((#[trigger] installed[i]).version@) implies
            !tools_fit(installed[i], rustc_version, commit_hash) by {
            assert(!is_candidate(models[i], rustc_version, commit_hash));
        }
    }
}

/// Ordered names of versions are the names with the letter of versions, as often as they were given, and
/// no later one comes behind an earlier one.
pub proof fn law_ordered_versions(names: Seq<String>, ordered: Seq<String>)
    requires
        latest_first(views(ordered)),
        views(ordered).to_multiset() == views(names).filter(
            |name: Seq<char>| is_version(name),
        ).to_multiset(),
    ensures
        forall|i: int, j: int|
            0 <= i < j < ordered.len() ==> version_le(
                (#[trigger] ordered[j])@,
                (#[trigger] ordered[i])@,
            ),
        ordered.map_values(|s: String| s@).to_multiset() == names.map_values(
            |s: String| s@,
        ).filter(|name: Seq<char>| names_version(name)).to_multiset(),
{
    assert forall|i: int, j: int| 0 <= i < j < ordered.len() implies version_le(
        (#[trigger] ordered[j])@,
        (#[trigger] ordered[i])@,
    ) by {
        assert(views(ordered)[i] == ordered[i]@ && views(ordered)[j] == ordered[j]@);
    }
    let p = |name: Seq<char>| is_version(name);
    let q = |name: Seq<char>| names_version(name);
    assert forall|name: Seq<char>| #[trigger] p(name) == q(name) by {
        law_version_names(name);
    }
    assert(p =~= q);
    assert(views(ordered) =~= ordered.map_values(|s: String| s@));
    assert(views(names) =~= names.map_values(|s: String| s@));
}

/// A producer attribute in which `rustc version` does not stand names no compiler.
pub proof fn law_other_producers(producer: Seq<char>)
    requires
        !has_part(producer, "rustc version "@),
    ensures
        compiler_of(producer) is None,
{
    law_unsplit(producer, "rustc version "@);
}

/// What stands behind the first `rustc version` of a producer attribute.
proof fn lemma_producer(head: Seq<char>, after: Seq<char>)
    requires
        forall|j: int|
            0 <= j < head.len() ==> !#[trigger] stands_at(
                head + "rustc version "@ + after,
                "rustc version "@,
                j,
            ),
        !has_part(after, "rustc version "@),
    ensures
        piece(head + "rustc version "@ + after, "rustc version "@, 1) == Some(after),
{
    assert("rustc version "@.len() > 0) by {
        reveal_strlit("rustc version ");
    }
    law_split_at(head, "rustc version "@, after);
    law_unsplit(after, "rustc version "@);
}

/// The compiler of the platform tools whose commit is known: `1.89.0-dev (daa3af4 2026-03-03))`.
pub proof fn law_platform_producers(
    head: Seq<char>,
    version: Seq<char>,
    hash: Seq<char>,
    date: Seq<char>,
    tail: Seq<char>,
)
    requires
        ({
            let after = version + "-dev ("@ + hash + " "@ + date + ")"@ + tail;
            &&& !has_part(after, "rustc version "@)
            &&& forall|j: int|
                0 <= j < head.len() ==> !#[trigger] stands_at(
                    head + "rustc version "@ + after,
                    "rustc version "@,
                    j,
                )
        }),
        !version.contains('-') && !version.contains('(') && !version.contains(')'),
        is_word(hash) && !hash.contains('(') && !hash.contains(')'),
        !date.contains('(') && !date.contains(')'),
    ensures
        compiler_of(
            head + "rustc version "@ + (version + "-dev ("@ + hash + " "@ + date + ")"@ + tail),
        ) == Some(CompilerModel::PlatformTools { rustc_version: version, commit_hash: Some(hash) }),
{
    let after = version + "-dev ("@ + hash + " "@ + date + ")"@ + tail;
    lemma_producer(head, after);
    reveal_strlit("-dev (");
    reveal_strlit("-dev");
    reveal_strlit(" ");
    reveal_strlit(")");
    reveal_strlit("(");
    reveal_strlit("-");
    let n = version.len() as int;
    assert(after.subrange(n, n + 4) =~= "-dev"@);
    assert(stands_at(after, "-dev"@, n));
    law_contains_parts(after, "-dev"@);
    let inner = hash + seq![' '] + date;
    let whole = version + seq!['-', 'd', 'e', 'v', ' ', '('] + inner;
    assert(!whole.contains(')')) by {
        lemma_not_in(version, hash, date, ')');
    }
    assert(after =~= whole + seq![')'] + tail);
    assert(")"@ =~= seq![')']);
    law_split_at_char(whole, ')', tail);
    assert(piece(after, ")"@, 0) == Some(whole));
    assert("-"@ =~= seq!['-']);
    law_split_at_char(version, '-', seq!['d', 'e', 'v', ' ', '('] + inner);
    assert(whole =~= version + seq!['-'] + (seq!['d', 'e', 'v', ' ', '('] + inner));
    assert(piece(whole, "-"@, 0) == Some(version));
    assert("("@ =~= seq!['(']);
    let front = version + seq!['-', 'd', 'e', 'v', ' '];
    assert(!front.contains('(')) by {
        if front.contains('(') {
            let i = choose|i: int| 0 <= i < front.len() && front[i] == '(';
            if i < version.len() {
                assert(version[i] == '(');
            }
        }
    }
    assert(!inner.contains('(')) by {
        if inner.contains('(') {
            let i = choose|i: int| 0 <= i < inner.len() && inner[i] == '(';
            if i < hash.len() {
                assert(hash[i] == '(');
            } else if i > hash.len() {
                assert(date[i - hash.len() - 1] == '(');
            }
        }
    }
    law_split_at_char(front, '(', inner);
    law_split_at_char(inner, '(', seq![]);
    assert(whole =~= front + seq!['('] + inner);
    assert(piece(whole, "("@, 1) == Some(inner));
    assert(inner =~= hash + (seq![' '] + date));
    law_words(seq![], hash, seq![' '] + date);
    assert(words(inner)[0] == hash);
    assert(bracketed_hash(whole) == Some(hash));
}

proof fn lemma_not_in(version: Seq<char>, hash: Seq<char>, date: Seq<char>, c: char)
    requires
        c == ')',
        !version.contains(c),
        !hash.contains(c),
        !date.contains(c),
    ensures
        !(version + seq!['-', 'd', 'e', 'v', ' ', '('] + (hash + seq![' '] + date)).contains(c),
{
    let whole = version + seq!['-', 'd', 'e', 'v', ' ', '('] + (hash + seq![' '] + date);
    if whole.contains(c) {
        let i = choose|i: int| 0 <= i < whole.len() && whole[i] == c;
        let n = version.len() as int;
        let m = n + 6 + hash.len();
        if i < n {
            assert(version[i] == c);
        } else if n + 6 <= i < m {
            assert(hash[i - n - 6] == c);
        } else if i > m {
            assert(date[i - m - 1] == c);
        }
    }
}

/// The compiler of the platform tools whose commit is not known: `1.89.0-dev)`.
pub proof fn law_bare_platform_producers(head: Seq<char>, version: Seq<char>, tail: Seq<char>)
    requires
        ({
            let after = version + "-dev)"@ + tail;
            &&& !has_part(after, "rustc version "@)
            &&& forall|j: int|
                0 <= j < head.len() ==> !#[trigger] stands_at(
                    head + "rustc version "@ + after,
                    "rustc version "@,
                    j,
                )
        }),
        !version.contains('-') && !version.contains('(') && !version.contains(')'),
    ensures
        compiler_of(head + "rustc version "@ + (version + "-dev)"@ + tail)) == Some(
            CompilerModel::PlatformTools { rustc_version: version, commit_hash: None },
        ),
{
    let after = version + "-dev)"@ + tail;
    lemma_producer(head, after);
    reveal_strlit("-dev)");
    reveal_strlit("-dev");
    reveal_strlit(")");
    reveal_strlit("(");
    reveal_strlit("-");
    let n = version.len() as int;
    assert(after.subrange(n, n + 4) =~= "-dev"@);
    assert(stands_at(after, "-dev"@, n));
    law_contains_parts(after, "-dev"@);
    let whole = version + seq!['-', 'd', 'e', 'v'];
    assert forall|c: char| (c == '(' || c == ')') implies !#[trigger] whole.contains(c) by {
        if whole.contains(c) {
            let i = choose|i: int| 0 <= i < whole.len() && whole[i] == c;
            if i < n {
                assert(version[i] == c);
            }
        }
    }
    assert(after =~= whole + seq![')'] + tail);
    assert(")"@ =~= seq![')']);
    law_split_at_char(whole, ')', tail);
    assert(piece(after, ")"@, 0) == Some(whole));
    assert("-"@ =~= seq!['-']);
    law_split_at_char(version, '-', seq!['d', 'e', 'v']);
    assert(whole =~= version + seq!['-'] + seq!['d', 'e', 'v']);
    assert("("@ =~= seq!['(']);
    law_split_at_char(whole, '(', seq![]);
    assert(bracketed_hash(whole) is None);
}

/// The nightly compiler of a day: `1.96.0-nightly (80381278a 2026-03-01))`.
pub proof fn law_nightly_producers(
    head: Seq<char>,
    version: Seq<char>,
    hash: Seq<char>,
    date: Seq<char>,
    tail: Seq<char>,
)
    requires
        ({
            let after = version + " ("@ + hash + " "@ + date + ")"@ + tail;
            &&& !has_part(after, "rustc version "@)
            &&& !has_part(after, "-dev"@)
            &&& forall|j: int|
                0 <= j < head.len() ==> !#[trigger] stands_at(
                    head + "rustc version "@ + after,
                    "rustc version "@,
                    j,
                )
        }),
        !version.contains('('),
        is_word(hash) && !hash.contains('(') && !hash.contains(')'),
        is_word(date) && !date.contains('(') && !date.contains(')'),
    ensures
        compiler_of(
            head + "rustc version "@ + (version + " ("@ + hash + " "@ + date + ")"@ + tail),
        ) == Some(CompilerModel::Nightly { date }),
{
    let after = version + " ("@ + hash + " "@ + date + ")"@ + tail;
    lemma_producer(head, after);
    law_contains_parts(after, "-dev"@);
    reveal_strlit(" (");
    reveal_strlit(" ");
    reveal_strlit(")");
    reveal_strlit("(");
    assert("("@ =~= seq!['(']);
    assert(")"@ =~= seq![')']);
    let front = version + seq![' '];
    let inner = hash + seq![' '] + date;
    let rest = inner + seq![')'] + tail;
    assert(!front.contains('(')) by {
        if front.contains('(') {
            let i = choose|i: int| 0 <= i < front.len() && front[i] == '(';
            if i < version.len() {
                assert(version[i] == '(');
            }
        }
    }
    assert forall|c: char| (c == '(' || c == ')') implies !#[trigger] inner.contains(c) by {
        if inner.contains(c) {
            let i = choose|i: int| 0 <= i < inner.len() && inner[i] == c;
            if i < hash.len() {
                assert(hash[i] == c);
            } else if i > hash.len() {
                assert(date[i - hash.len() - 1] == c);
            }
        }
    }
    assert(after =~= front + seq!['('] + rest);
    law_split_at_char(front, '(', rest);
    law_first_piece(rest, '(');
    let first = piece(rest, seq!['('], 0)->0;
    assert(piece(after, "("@, 1) == Some(first));
    let n = inner.len() as int;
    assert(first.len() >= n + 1) by {
        if first.len() < n {
            let k = first.len() as int;
            assert(rest[k] == inner[k]);
            assert(inner.contains(inner[k]));
        } else if first.len() == n {
            assert(rest[n] == ')');
        }
    }
    let end = first.skip(n + 1);
    assert(first =~= inner + seq![')'] + end) by {
        assert forall|i: int| 0 <= i < first.len() implies first[i] == (inner + seq![')'] + end)[i] by {
            assert(first[i] == rest[i]);
        }
    }
    law_split_at_char(inner, ')', end);
    assert(piece(first, ")"@, 0) == Some(inner));
    assert(inner =~= hash + (seq![' '] + date));
    law_words(seq![], hash, seq![' '] + date);
    law_words(seq![' '], date, date);
    assert(date + Seq::<char>::empty() =~= date);
    law_words(seq![], date, seq![]);
    assert(words(inner)[1] == date);
}

/// What a producer attribute says of the compiler, whatever stands behind `rustc version`. With `-dev`
/// in it, the version goes up to the first hyphen or closing bracket, and the hash is the first word
/// behind the first opening bracket. Without, the date is the second word in the first brackets.
pub proof fn law_any_producer(producer: Seq<char>)
    requires
        has_part(producer, "rustc version "@),
    ensures
        split(producer, "rustc version "@).len() >= 2,
        ({
            let after = split(producer, "rustc version "@)[1];
            let version = upto(after, ')');
            if has_part(after, "-dev"@) {
                compiler_of(producer) == Some(
                    CompilerModel::PlatformTools {
                        rustc_version: upto(version, '-'),
                        commit_hash: match past(version, '(') {
                            Some(inner) => if words(upto(inner, '(')).len() > 0 {
                                Some(words(upto(inner, '('))[0])
                            } else {
                                None
                            },
                            None => None,
                        },
                    },
                )
            } else {
                compiler_of(producer) == match past(after, '(') {
                    Some(inner) => if words(upto(upto(inner, '('), ')')).len() > 1 {
                        Some(
                            CompilerModel::Nightly {
                                date: words(upto(upto(inner, '('), ')'))[1],
                            },
                        )
                    } else {
                        None
                    },
                    None => None,
                }
            }
        }),
{
    let sep = "rustc version "@;
    assert(sep.len() > 0) by {
        reveal_strlit("rustc version ");
    }
    law_contains_parts(producer, sep);
    lemma_find(producer, sep);
    let pieces = split(producer, sep);
    assert(pieces.len() >= 2) by {
        let i = find(producer, sep)->0;
        let rest = producer.subrange(i + sep.len(), producer.len() as int);
        assert(split(rest, sep).len() >= 1);
        assert(pieces == seq![producer.subrange(0, i)] + split(rest, sep));
    }
    let after = pieces[1];
    law_contains_parts(after, "-dev"@);
    reveal_strlit("(");
    reveal_strlit(")");
    reveal_strlit("-");
    assert("("@ =~= seq!['(']);
    assert(")"@ =~= seq![')']);
    assert("-"@ =~= seq!['-']);
    let version = upto(after, ')');
    law_two_pieces(after, ')');
    law_two_pieces(after, '(');
    law_two_pieces(version, '-');
    law_two_pieces(version, '(');
    if let Some(inner) = past(after, '(') {
        law_two_pieces(upto(inner, '('), ')');
    }
}

/// The contents of a compiler are those of its fields.
pub proof fn law_compiler_contents(compiler: Option<Compiler>)
    ensures
        compiler is None ==> compiler_view(compiler) is None,
        compiler matches Some(Compiler::Nightly { date }) ==> compiler_view(compiler) == Some(
            CompilerModel::Nightly { date: date@ },
        ),
        compiler matches Some(Compiler::PlatformTools { rustc_version, commit_hash: Some(hash) })
            ==> compiler_view(compiler) == Some(
            CompilerModel::PlatformTools {
                rustc_version: rustc_version@,
                commit_hash: Some(hash@),
            },
        ),
        compiler matches Some(Compiler::PlatformTools { rustc_version, commit_hash: None })
            ==> compiler_view(compiler) == Some(
            CompilerModel::PlatformTools { rustc_version: rustc_version@, commit_hash: None },
        ),
{
}

/// The contents of a toolchain are its name and the version of its platform tools.
pub proof fn law_toolchain_contents(name: String, version: String)
    ensures
        toolchain_view(Some((name, Some(version)))) == Some((name@, Some(version@))),
        toolchain_view(Some((name, None))) == Some((name@, None::<Seq<char>>)),
        toolchain_view(None) is None,
{
}

/// The name of the toolchain of a nightly compiler has its date, and it belongs to no platform tools.
pub proof fn law_nightly_toolchains(
    producer: Seq<char>,
    installed: Seq<PlatformTools>,
    toolchain: Option<(Seq<char>, Option<Seq<char>>)>,
    date: Seq<char>,
)
    requires
        is_toolchain(producer, tools_views(installed), toolchain),
        compiler_of(producer) == Some(CompilerModel::Nightly { date }),
    ensures
        toolchain == Some(("nightly-"@ + date, None::<Seq<char>>)),
{
}

/// The name of the toolchain of platform tools has the version of the compiler and the latest version of
/// the tools that fit the program. There is none only where no tools fit.
pub proof fn law_platform_toolchains(
    producer: Seq<char>,
    installed: Seq<PlatformTools>,
    toolchain: Option<(Seq<char>, Option<Seq<char>>)>,
    rustc_version: Seq<char>,
    commit_hash: Option<Seq<char>>,
)
    requires
        is_toolchain(producer, tools_views(installed), toolchain),
        compiler_of(producer) == Some(CompilerModel::PlatformTools { rustc_version, commit_hash }),
    ensures
        match toolchain {
            Some((name, version)) => {
                &&& version is Some
                &&& name == rustc_version + "-sbpf-solana-"@ + version->0
                &&& is_latest(tools_views(installed), rustc_version, commit_hash, version)
            },
            None => forall|i: int|
                0 <= i < installed.len() && names_version((#[trigger] installed[i]).version@)
                    ==> !tools_fit(installed[i], rustc_version, commit_hash),
        },
{
    if toolchain is None {
        law_latest_tools(installed, rustc_version, commit_hash, None);
    }
}

/// A program whose compiler is not recognised has no toolchain.
pub proof fn law_no_toolchain(
    producer: Seq<char>,
    installed: Seq<PlatformTools>,
    toolchain: Option<(Seq<char>, Option<Seq<char>>)>,
)
    requires
        is_toolchain(producer, tools_views(installed), toolchain),
        compiler_of(producer) is None,
    ensures
        toolchain is None,
{
}

/// A program has a producer attribute of Rust exactly when it has one and its language is Rust.
pub proof fn law_rust_producer(debug_path: DebugPath, producer: Option<&str>)
    requires
        is_rust_producer(debug_path, str_view(producer)),
    ensures
        producer is Some <==> debug_path.producer is Some && debug_path.lang is Some
            && debug_path.lang->0@ == "DW_LANG_Rust"@,
        producer is Some ==> producer->0@ == debug_path.producer->0@,
{
}

/// The message on the toolchain of a program, with and without platform tools.
pub proof fn law_toolchain_message(
    file_name: Seq<char>,
    producer: Seq<char>,
    toolchain: Seq<char>,
    version: Seq<char>,
)
    ensures
        toolchain_text(file_name, producer, (toolchain, Some(version))) == seq![
            file_name,
            " likely: compiler "@,
            producer,
            ", platform-tools "@,
            version,
            ", toolchain "@,
            toolchain,
        ].flatten(),
        toolchain_text(file_name, producer, (toolchain, None)) == seq![
            file_name,
            " likely: compiler "@,
            producer,
            ", toolchain "@,
            toolchain,
        ].flatten(),
{
    let long = seq![
        file_name,
        " likely: compiler "@,
        producer,
        ", platform-tools "@,
        version,
        ", toolchain "@,
        toolchain,
    ];
    let short = seq![file_name, " likely: compiler "@, producer, ", toolchain "@, toolchain];
    reveal_with_fuel(Seq::flatten, 9);
    assert(toolchain_text(file_name, producer, (toolchain, Some(version))) =~= long.flatten());
    assert(toolchain_text(file_name, producer, (toolchain, None)) =~= short.flatten());
}

/// A file of the standard library lies under the sources of the toolchain, where these are known: what
/// its path has from the first `/library/` on is kept.
pub proof fn law_library_paths(
    dwarf_path: Seq<char>,
    rust_src_root: Seq<char>,
    cargo_root: Seq<char>,
    i: int,
)
    requires
        stands_at(dwarf_path, "/library/"@, i),
        forall|j: int| 0 <= j < i ==> !#[trigger] stands_at(dwarf_path, "/library/"@, j),
    ensures
        mapped_path(dwarf_path, Some(rust_src_root), cargo_root) == rust_src_root + "/"@
            + dwarf_path.skip(i),
{
    law_find_first(dwarf_path, "/library/"@, i);
}

/// A file of a dependency from a registry lies under the home directory of Cargo, whether or not the
/// sources of the toolchain are known.
pub proof fn law_registry_paths(
    head: Seq<char>,
    end: Seq<char>,
    rust_src_root: Option<Seq<char>>,
    cargo_root: Seq<char>,
)
    requires
        ({
            let path = head + ".cargo/"@ + end;
            &&& rust_src_root is None || !has_part(path, "/library/"@)
            &&& forall|j: int|
                0 <= j < head.len() ==> !#[trigger] stands_at(path, ".cargo/registry/"@, j)
        }),
        "registry/"@.is_prefix_of(end),
    ensures
        mapped_path(head + ".cargo/"@ + end, rust_src_root, cargo_root) == cargo_root + "/"@ + end,
{
    let path = head + ".cargo/"@ + end;
    let n = head.len() as int;
    law_contains_parts(path, "/library/"@);
    reveal_strlit(".cargo/");
    reveal_strlit("registry/");
    reveal_strlit(".cargo/registry/");
    assert(path.subrange(n, n + 16) =~= ".cargo/registry/"@) by {
        assert forall|k: int| 0 <= k < 9 implies #[trigger] end[k] == "registry/"@[k] by {}
    }
    assert(stands_at(path, ".cargo/registry/"@, n));
    law_find_first(path, ".cargo/registry/"@, n);
    assert(path.skip(n + 7) =~= end);
}

/// A file of a dependency from a checkout lies under the home directory of Cargo, whether or not the
/// sources of the toolchain are known.
pub proof fn law_checkout_paths(
    head: Seq<char>,
    end: Seq<char>,
    rust_src_root: Option<Seq<char>>,
    cargo_root: Seq<char>,
)
    requires
        ({
            let path = head + ".cargo/"@ + end;
            &&& rust_src_root is None || !has_part(path, "/library/"@)
            &&& !has_part(path, ".cargo/registry/"@)
            &&& forall|j: int| 0 <= j < head.len() ==> !#[trigger] stands_at(path, ".cargo/git/"@, j)
        }),
        "git/"@.is_prefix_of(end),
    ensures
        mapped_path(head + ".cargo/"@ + end, rust_src_root, cargo_root) == cargo_root + "/"@ + end,
{
    let path = head + ".cargo/"@ + end;
    let n = head.len() as int;
    law_contains_parts(path, "/library/"@);
    law_contains_parts(path, ".cargo/registry/"@);
    reveal_strlit(".cargo/");
    reveal_strlit("git/");
    reveal_strlit(".cargo/git/");
    assert(path.subrange(n, n + 11) =~= ".cargo/git/"@) by {
        assert forall|k: int| 0 <= k < 4 implies #[trigger] end[k] == "git/"@[k] by {}
    }
    assert(stands_at(path, ".cargo/git/"@, n));
    law_find_first(path, ".cargo/git/"@, n);
    assert(path.skip(n + 7) =~= end);
}

/// Every other file lies where the debug information says.
pub proof fn law_unmapped_paths(
    dwarf_path: Seq<char>,
    rust_src_root: Option<Seq<char>>,
    cargo_root: Seq<char>,
)
    requires
        rust_src_root is None || !has_part(dwarf_path, "/library/"@),
        !has_part(dwarf_path, ".cargo/registry/"@),
        !has_part(dwarf_path, ".cargo/git/"@),
    ensures
        mapped_path(dwarf_path, rust_src_root, cargo_root) == dwarf_path,
{
    law_contains_parts(dwarf_path, "/library/"@);
    law_contains_parts(dwarf_path, ".cargo/registry/"@);
    law_contains_parts(dwarf_path, ".cargo/git/"@);
}

} // verus!
