//! The Rust toolchain that compiled a program, and where its sources lie on this machine.

use crate::dwarf::DebugPath;
use crate::order::{str_same, Rank};
use crate::text::{
    chars_of, contains, find, find_chars, first_at, lemma_find, lemma_split_nonempty, lines,
    nth_word, occurs_at, opt_view, piece, split_lines, split_nth, starts_with, str_contains,
    str_starts_with, str_view, string_of, string_view, trim, trim_chars, views, word,
};
use crate::version::{
    lemma_version_antisymmetric, lemma_version_total, lemma_version_transitive, version_le,
    version_rank,
};
use vstd::prelude::*;
use vstd::slice::slice_subrange;

verus! {

/// The compiler that the producer attribute of a program names.
pub enum Compiler {
    /// The nightly compiler of a day.
    Nightly { date: String },
    /// The compiler of the platform tools, with the beginning of its commit hash where it is known.
    PlatformTools { rustc_version: String, commit_hash: Option<String> },
}

/// The view of a compiler.
pub enum CompilerModel {
    Nightly { date: Seq<char> },
    PlatformTools { rustc_version: Seq<char>, commit_hash: Option<Seq<char>> },
}

impl View for Compiler {
    type V = CompilerModel;

    open spec fn view(&self) -> CompilerModel {
        match *self {
            Compiler::Nightly { date } => CompilerModel::Nightly { date: date@ },
            Compiler::PlatformTools { rustc_version, commit_hash } => {
                CompilerModel::PlatformTools {
                    rustc_version: rustc_version@,
                    commit_hash: string_view(commit_hash),
                }
            },
        }
    }
}

/// The second word in the first brackets: of `1.96.0-nightly (80381278a 2026-03-01))` the date.
pub open spec fn bracketed_date(after: Seq<char>) -> Option<Seq<char>> {
    match piece(after, "("@, 1) {
        Some(inner) => word(piece(inner, ")"@, 0)->0, 1),
        None => None,
    }
}

/// The first word behind the first opening bracket.
pub open spec fn bracketed_hash(version: Seq<char>) -> Option<Seq<char>> {
    match piece(version, "("@, 1) {
        Some(inner) => word(inner, 0),
        None => None,
    }
}

/// What a producer attribute says of the compiler. The version stands behind the words
/// `rustc version`; a version with `-dev` is one of the platform tools.
pub open spec fn compiler_of(producer: Seq<char>) -> Option<CompilerModel> {
    match piece(producer, "rustc version "@, 1) {
        None => None,
        Some(after) => if contains(after, "-dev"@) {
            let version = piece(after, ")"@, 0)->0;
            Some(
                CompilerModel::PlatformTools {
                    rustc_version: piece(version, "-"@, 0)->0,
                    commit_hash: bracketed_hash(version),
                },
            )
        } else {
            match bracketed_date(after) {
                Some(date) => Some(CompilerModel::Nightly { date }),
                None => None,
            }
        },
    }
}

/// The view of an optional compiler.
pub open spec fn compiler_view(compiler: Option<Compiler>) -> Option<CompilerModel> {
    match compiler {
        Some(compiler) => Some(compiler@),
        None => None,
    }
}

/// The first piece of a text.
fn first_piece<'a>(s: &'a [char], sep: &str) -> (first: &'a [char])
    requires
        sep@.len() > 0,
    ensures
        first@ == piece(s@, sep@, 0)->0,
{
    proof {
        lemma_split_nonempty(s@, sep@);
    }
    let sep = chars_of(sep);
    match split_nth(s, sep.as_slice(), 0) {
        Some(first) => first,
        None => s,
    }
}

/// The second piece of a text.
fn second_piece<'a>(s: &'a [char], sep: &str) -> (second: Option<&'a [char]>)
    requires
        sep@.len() > 0,
    ensures
        opt_view(second) == piece(s@, sep@, 1),
{
    let sep = chars_of(sep);
    split_nth(s, sep.as_slice(), 1)
}

/// Recognises the compiler in a producer attribute.
pub fn parse_producer(producer: &str) -> (compiler: Option<Compiler>)
    ensures
        compiler_view(compiler) == compiler_of(producer@),
{
    proof {
        reveal_strlit("rustc version ");
        reveal_strlit("(");
        reveal_strlit(")");
        reveal_strlit("-");
    }
    let producer = chars_of(producer);
    let after = match second_piece(producer.as_slice(), "rustc version ") {
        Some(after) => after,
        None => {
            return None;
        },
    };
    let dev = chars_of("-dev");
    if find_chars(after, dev.as_slice()).is_some() {
        // "1.89.0-dev)" or "1.89.0-dev (daa3af4 2026-03-03))"
        let version = first_piece(after, ")");
        let rustc_version = string_of(first_piece(version, "-"));
        let commit_hash = match second_piece(version, "(") {
            Some(inner) => match nth_word(inner, 0) {
                Some(hash) => Some(string_of(hash)),
                None => None,
            },
            None => None,
        };
        Some(Compiler::PlatformTools { rustc_version, commit_hash })
    } else {
        // "1.96.0-nightly (80381278a 2026-03-01))"
        match second_piece(after, "(") {
            Some(inner) => match nth_word(first_piece(inner, ")"), 1) {
                Some(date) => Some(Compiler::Nightly { date: string_of(date) }),
                None => None,
            },
            None => None,
        }
    }
}

/// An installed version of the platform tools.
pub struct PlatformTools {
    /// The name of the version's directory.
    pub version: String,
    /// What its compiler says of its version; `None` where there is no compiler that runs.
    pub rustc_version: Option<String>,
    /// The file that lists the commits the tools were made from.
    pub version_file: Option<String>,
}

/// The view of an installed version of the platform tools.
pub struct PlatformToolsModel {
    pub version: Seq<char>,
    pub rustc_version: Option<Seq<char>>,
    pub version_file: Option<Seq<char>>,
}

impl View for PlatformTools {
    type V = PlatformToolsModel;

    open spec fn view(&self) -> PlatformToolsModel {
        PlatformToolsModel {
            version: self.version@,
            rustc_version: string_view(self.rustc_version),
            version_file: string_view(self.version_file),
        }
    }
}

/// The views of installed versions.
pub open spec fn tools_views(tools: Seq<PlatformTools>) -> Seq<PlatformToolsModel> {
    tools.map_values(|t: PlatformTools| t@)
}

/// Whether a directory name is that of a version.
pub open spec fn is_version(name: Seq<char>) -> bool {
    starts_with(name, "v"@)
}

/// The first of the lines that names the repository of the compiler, from line `i` on.
pub open spec fn rust_line(lines: Seq<Seq<char>>, i: int) -> Option<Seq<char>>
    decreases lines.len() - i,
{
    if i < 0 || i >= lines.len() {
        None
    } else if contains(lines[i], "rust.git"@) {
        Some(lines[i])
    } else {
        rust_line(lines, i + 1)
    }
}

/// The commit hash of the compiler in the list of commits: it stands before the first space of the
/// line that names the repository.
pub open spec fn listed_hash(version_file: Option<Seq<char>>) -> Option<Seq<char>> {
    match version_file {
        Some(content) => match rust_line(lines(content), 0) {
            Some(line) => piece(line, " "@, 0),
            None => None,
        },
        None => None,
    }
}

/// Whether the compiler of the tools is the one that a program was compiled with. The commit hashes
/// decide against it where both are known and differ; the version must be the same in any case.
pub open spec fn is_match(
    tools: PlatformToolsModel,
    rustc_version: Seq<char>,
    commit_hash: Option<Seq<char>>,
) -> bool {
    &&& tools.rustc_version is Some
    &&& (listed_hash(tools.version_file) is Some && commit_hash is Some) ==> starts_with(
        listed_hash(tools.version_file)->0,
        commit_hash->0,
    )
    &&& contains(tools.rustc_version->0, rustc_version)
}

/// The commit hash of the compiler in the list of commits.
fn find_listed_hash(version_file: &str) -> (hash: Option<String>)
    ensures
        string_view(hash) == listed_hash(Some(version_file@)),
{
    proof {
        reveal_strlit(" ");
    }
    let all = split_lines(version_file);
    for i in 0..all.len()
        invariant
            views(all@) == lines(version_file@),
            rust_line(lines(version_file@), i as int) == rust_line(lines(version_file@), 0),
            " "@.len() > 0,
    {
        assert(views(all@)[i as int] == all@[i as int]@);
        if str_contains(all[i].as_str(), "rust.git") {
            let line = chars_of(all[i].as_str());
            proof {
                lemma_split_nonempty(line@, " "@);
            }
            return Some(string_of(first_piece(line.as_slice(), " ")));
        }
    }
    assert(views(all@).len() == all@.len());
    None
}

/// Tests whether the compiler of the tools is the one that a program was compiled with.
pub fn tools_match(
    tools: &PlatformTools,
    rustc_version: &str,
    commit_hash: Option<&str>,
) -> (b: bool)
    ensures
        b == is_match(tools@, rustc_version@, str_view(commit_hash)),
{
    let found = match &tools.rustc_version {
        Some(found) => found,
        None => {
            return false;
        },
    };
    let listed = match &tools.version_file {
        Some(content) => find_listed_hash(content.as_str()),
        None => None,
    };
    if let Some(listed) = &listed {
        if let Some(hash) = commit_hash {
            if !str_starts_with(listed.as_str(), hash) {
                return false;
            }
        }
    }
    str_contains(found.as_str(), rustc_version)
}

/// Whether the tools can be the ones that a program was compiled with: they lie in a directory with
/// the name of a version, and their compiler is the right one.
pub open spec fn is_candidate(
    tools: PlatformToolsModel,
    rustc_version: Seq<char>,
    commit_hash: Option<Seq<char>>,
) -> bool {
    is_version(tools.version) && is_match(tools, rustc_version, commit_hash)
}

/// Whether `version` is the last of the candidates in the order of versions, `None` where there is no
/// candidate.
pub open spec fn is_latest(
    installed: Seq<PlatformToolsModel>,
    rustc_version: Seq<char>,
    commit_hash: Option<Seq<char>>,
    version: Option<Seq<char>>,
) -> bool {
    match version {
        Some(version) => {
            &&& exists|i: int|
                0 <= i < installed.len() && (#[trigger] installed[i]).version == version
                    && is_candidate(installed[i], rustc_version, commit_hash)
            &&& forall|i: int|
                0 <= i < installed.len() && is_candidate(
                    #[trigger] installed[i],
                    rustc_version,
                    commit_hash,
                ) ==> version_le(installed[i].version, version)
        },
        None => forall|i: int|
            0 <= i < installed.len() ==> !is_candidate(
                #[trigger] installed[i],
                rustc_version,
                commit_hash,
            ),
    }
}

/// The latest installed version of the platform tools whose compiler is the one that a program was
/// compiled with.
pub fn get_platform_tools_version(
    binary_rustc_version: &str,
    producer_rustc_commit_hash: Option<&str>,
    installed: &Vec<PlatformTools>,
) -> (version: Option<String>)
    ensures
        is_latest(
            tools_views(installed@),
            binary_rustc_version@,
            str_view(producer_rustc_commit_hash),
            string_view(version),
        ),
{
    let mut latest: Option<usize> = None;
    let ghost models = tools_views(installed@);
    for i in 0..installed.len()
        invariant
            models == tools_views(installed@),
            match latest {
                Some(k) => {
                    &&& k < i
                    &&& is_candidate(
                        models[k as int],
                        binary_rustc_version@,
                        str_view(producer_rustc_commit_hash),
                    )
                },
                None => true,
            },
            is_latest(
                models.take(i as int),
                binary_rustc_version@,
                str_view(producer_rustc_commit_hash),
                match latest {
                    Some(k) => Some(models[k as int].version),
                    None => None,
                },
            ),
    {
        let tools = &installed[i];
        let ghost seen = models.take(i as int);
        let ghost now = models.take(i + 1);
        proof {
            assert(models[i as int] == tools@);
            assert(now[i as int] == tools@);
            assert forall|j: int| 0 <= j < i implies #[trigger] now[j] == seen[j] by {}
        }
        if str_starts_with(tools.version.as_str(), "v") && tools_match(
            tools,
            binary_rustc_version,
            producer_rustc_commit_hash,
        ) {
            match latest {
                None => {
                    latest = Some(i);
                    proof {
                        lemma_version_total(tools@.version, tools@.version);
                    }
                },
                Some(k) => {
                    assert(models[k as int] == installed@[k as int]@);
                    assert(now[k as int] == models[k as int]);
                    let before = version_rank(installed[k].version.as_str(), tools.version.as_str())
                        == Rank::Before;
                    proof {
                        let best = models[k as int].version;
                        lemma_version_total(tools@.version, tools@.version);
                        assert forall|j: int|
                            0 <= j < now.len() && before && is_candidate(
                                #[trigger] now[j],
                                binary_rustc_version@,
                                str_view(producer_rustc_commit_hash),
                            ) implies version_le(now[j].version, tools@.version) by {
                            if j < i {
                                assert(now[j] == seen[j]);
                                lemma_version_transitive(now[j].version, best, tools@.version);
                            }
                        }
                        assert forall|j: int|
                            0 <= j < now.len() && !before && is_candidate(
                                #[trigger] now[j],
                                binary_rustc_version@,
                                str_view(producer_rustc_commit_hash),
                            ) implies version_le(now[j].version, best) by {
                            if j < i {
                                assert(now[j] == seen[j]);
                            }
                        }
                    }
                    if before {
                        latest = Some(i);
                    }
                },
            }
        } else {
            proof {
                if let Some(k) = latest {
                    assert(now[k as int] == models[k as int]);
                }
                assert forall|j: int|
                    0 <= j < now.len() && is_candidate(
                        #[trigger] now[j],
                        binary_rustc_version@,
                        str_view(producer_rustc_commit_hash),
                    ) implies j < i && now[j] == seen[j] by {}
            }
        }
    }
    assert(models.take(models.len() as int) == models);
    match latest {
        Some(k) => {
            assert(models[k as int] == installed@[k as int]@);
            Some(installed[k].version.as_str().to_owned())
        },
        None => None,
    }
}

/// There is one latest version at most.
pub proof fn law_latest_is_unique(
    installed: Seq<PlatformToolsModel>,
    rustc_version: Seq<char>,
    commit_hash: Option<Seq<char>>,
    a: Option<Seq<char>>,
    b: Option<Seq<char>>,
)
    requires
        is_latest(installed, rustc_version, commit_hash, a),
        is_latest(installed, rustc_version, commit_hash, b),
    ensures
        a == b,
{
    if a is Some && b is Some {
        lemma_version_antisymmetric(a->0, b->0);
    }
}

/// Whether no version comes after one that stands before it.
pub open spec fn latest_first(versions: Seq<Seq<char>>) -> bool {
    forall|i: int, j: int|
        0 <= i < j < versions.len() ==> version_le(#[trigger] versions[j], #[trigger] versions[i])
}

/// The versions of installed tools.
pub open spec fn versions_of(installed: Seq<PlatformToolsModel>) -> Seq<Seq<char>> {
    installed.map_values(|t: PlatformToolsModel| t.version)
}

/// Tools that are looked at with the latest version first need not be looked at beyond the first
/// candidate: it decides.
pub proof fn law_first_candidate_decides(
    installed: Seq<PlatformToolsModel>,
    rustc_version: Seq<char>,
    commit_hash: Option<Seq<char>>,
    k: int,
    version: Option<Seq<char>>,
)
    requires
        latest_first(versions_of(installed)),
        0 <= k < installed.len(),
        is_candidate(installed[k], rustc_version, commit_hash),
        is_latest(installed.take(k + 1), rustc_version, commit_hash, version),
    ensures
        is_latest(installed, rustc_version, commit_hash, version),
{
    let seen = installed.take(k + 1);
    let versions = versions_of(installed);
    assert(seen[k] == installed[k]);
    let v = version->0;
    let i = choose|i: int|
        0 <= i < seen.len() && (#[trigger] seen[i]).version == v && is_candidate(
            seen[i],
            rustc_version,
            commit_hash,
        );
    assert(installed[i] == seen[i]);
    assert forall|j: int|
        0 <= j < installed.len() && is_candidate(
            #[trigger] installed[j],
            rustc_version,
            commit_hash,
        ) implies version_le(installed[j].version, v) by {
        if j <= k {
            assert(seen[j] == installed[j]);
        } else {
            assert(version_le(versions[j], versions[k]));
            lemma_version_transitive(installed[j].version, installed[k].version, v);
        }
    }
}

/// Keeps the names of versions and puts the latest first.
pub fn order_versions(names: &Vec<String>) -> (ordered: Vec<String>)
    ensures
        latest_first(views(ordered@)),
        views(ordered@).to_multiset() == views(names@).filter(
            |name: Seq<char>| is_version(name),
        ).to_multiset(),
{
    let mut ordered: Vec<String> = Vec::new();
    let ghost all = views(names@);
    let ghost keep = |name: Seq<char>| is_version(name);
    proof {
        reveal(Seq::filter);
        assert(views(ordered@) =~= all.take(0).filter(keep));
    }
    for i in 0..names.len()
        invariant
            all == views(names@),
            keep == (|name: Seq<char>| is_version(name)),
            latest_first(views(ordered@)),
            views(ordered@).to_multiset() == all.take(i as int).filter(keep).to_multiset(),
    {
        let name = names[i].as_str();
        let ghost kept = all.take(i as int).filter(keep);
        proof {
            reveal(Seq::filter);
            assert(all[i as int] == name@);
            assert(all.take(i + 1).drop_last() == all.take(i as int));
            assert(all.take(i + 1).last() == name@);
        }
        if str_starts_with(name, "v") {
            let mut pos: usize = 0;
            while pos < ordered.len() && version_rank(name, ordered[pos].as_str()) == Rank::Before
                invariant
                    pos <= ordered@.len(),
                    forall|j: int|
                        0 <= j < pos ==> version_le(name@, #[trigger] views(ordered@)[j]),
                decreases ordered@.len() - pos,
            {
                assert(views(ordered@)[pos as int] == ordered@[pos as int]@);
                pos = pos + 1;
            }
            let ghost before = views(ordered@);
            proof {
                if pos < before.len() {
                    assert(before[pos as int] == ordered@[pos as int]@);
                    lemma_version_total(name@, name@);
                    assert(version_le(before[pos as int], name@));
                }
            }
            ordered.insert(pos, name.to_owned());
            proof {
                let after = before.insert(pos as int, name@);
                assert(views(ordered@) =~= after);
                assert forall|a: int, b: int| 0 <= a < b < after.len() implies version_le(
                    #[trigger] after[b],
                    #[trigger] after[a],
                ) by {
                    if a < pos && b > pos {
                        assert(after[a] == before[a] && after[b] == before[b - 1]);
                    } else if a == pos {
                        assert(after[b] == before[b - 1]);
                        if b - 1 > pos {
                            assert(version_le(before[b - 1], before[pos as int]));
                            lemma_version_transitive(before[b - 1], before[pos as int], name@);
                        }
                    } else if b == pos {
                        assert(after[a] == before[a]);
                    } else if b < pos {
                        assert(after[a] == before[a] && after[b] == before[b]);
                    } else {
                        assert(after[a] == before[a - 1] && after[b] == before[b - 1]);
                    }
                }
                vstd::seq_lib::to_multiset_insert(before, pos as int, name@);
                kept.to_multiset_ensures();
            }
        }
    }
    assert(all.take(all.len() as int) == all);
    ordered
}

/// Whether `toolchain` is the name of the toolchain of a program, with the version of the platform
/// tools where it belongs to them. There is none where the producer attribute names no compiler or
/// the right platform tools are not installed.
pub open spec fn is_toolchain(
    producer: Seq<char>,
    installed: Seq<PlatformToolsModel>,
    toolchain: Option<(Seq<char>, Option<Seq<char>>)>,
) -> bool {
    match compiler_of(producer) {
        None => toolchain is None,
        Some(CompilerModel::Nightly { date }) => toolchain == Some(
            ("nightly-"@ + date, None::<Seq<char>>),
        ),
        Some(CompilerModel::PlatformTools { rustc_version, commit_hash }) => match toolchain {
            None => is_latest(installed, rustc_version, commit_hash, None),
            Some((name, version)) => {
                &&& version is Some
                &&& is_latest(installed, rustc_version, commit_hash, version)
                &&& name == rustc_version + "-sbpf-solana-"@ + version->0
            },
        },
    }
}

/// The view of an optional toolchain.
pub open spec fn toolchain_view(toolchain: Option<(String, Option<String>)>) -> Option<
    (Seq<char>, Option<Seq<char>>),
> {
    match toolchain {
        Some((name, version)) => Some((name@, string_view(version))),
        None => None,
    }
}

/// The name of the toolchain of a program, and the version of the platform tools where it belongs to
/// them: `1.89.0-sbpf-solana-v1.53` and `v1.53`, or `nightly-2026-03-01` alone.
pub fn rustc_toolchain_from_producer(
    producer: &str,
    installed: &Vec<PlatformTools>,
) -> (toolchain: Option<(String, Option<String>)>)
    ensures
        is_toolchain(producer@, tools_views(installed@), toolchain_view(toolchain)),
{
    match parse_producer(producer) {
        None => None,
        Some(Compiler::Nightly { date }) => {
            let mut name = String::new();
            name.append("nightly-");
            name.append(date.as_str());
            assert(name@ =~= "nightly-"@ + date@);
            Some((name, None))
        },
        Some(Compiler::PlatformTools { rustc_version, commit_hash }) => {
            let hash = match &commit_hash {
                Some(hash) => Some(hash.as_str()),
                None => None,
            };
            match get_platform_tools_version(rustc_version.as_str(), hash, installed) {
                None => None,
                Some(version) => {
                    let mut name = String::new();
                    name.append(rustc_version.as_str());
                    name.append("-sbpf-solana-");
                    name.append(version.as_str());
                    assert(name@ =~= rustc_version@ + "-sbpf-solana-"@ + version@);
                    Some((name, Some(version)))
                },
            }
        },
    }
}

/// A program has one toolchain at most.
pub proof fn law_toolchain_is_unique(
    producer: Seq<char>,
    installed: Seq<PlatformToolsModel>,
    a: Option<(Seq<char>, Option<Seq<char>>)>,
    b: Option<(Seq<char>, Option<Seq<char>>)>,
)
    requires
        is_toolchain(producer, installed, a),
        is_toolchain(producer, installed, b),
    ensures
        a == b,
{
    if let Some(CompilerModel::PlatformTools { rustc_version, commit_hash }) = compiler_of(
        producer,
    ) {
        let va = match a {
            Some((_, version)) => version,
            None => None,
        };
        let vb = match b {
            Some((_, version)) => version,
            None => None,
        };
        law_latest_is_unique(installed, rustc_version, commit_hash, va, vb);
    }
}

/// The producer attribute of a program that was written in Rust.
pub open spec fn is_rust_producer(debug_path: DebugPath, producer: Option<Seq<char>>) -> bool {
    if string_view(debug_path.lang) == Some("DW_LANG_Rust"@) {
        producer == string_view(debug_path.producer)
    } else {
        producer is None
    }
}

/// The producer attribute of a program that was written in Rust.
pub fn rust_producer(debug_path: &DebugPath) -> (producer: Option<&str>)
    ensures
        is_rust_producer(*debug_path, str_view(producer)),
{
    if let Some(lang) = &debug_path.lang {
        if str_same(lang.as_str(), "DW_LANG_Rust") {
            return match &debug_path.producer {
                Some(producer) => Some(producer.as_str()),
                None => None,
            };
        }
    }
    None
}

/// The message on the toolchain of a program.
pub open spec fn toolchain_text(
    file_name: Seq<char>,
    producer: Seq<char>,
    toolchain: (Seq<char>, Option<Seq<char>>),
) -> Seq<char> {
    let tools = match toolchain.1 {
        Some(version) => ", platform-tools "@ + version,
        None => seq![],
    };
    file_name + " likely: compiler "@ + producer + tools + ", toolchain "@ + toolchain.0
}

/// The message on the toolchain of a program.
pub fn toolchain_message(
    file_name: &str,
    producer: &str,
    toolchain: &str,
    platform_tools: Option<&str>,
) -> (text: String)
    ensures
        text@ == toolchain_text(
            file_name@,
            producer@,
            (toolchain@, str_view(platform_tools)),
        ),
{
    let mut text = String::new();
    text.append(file_name);
    text.append(" likely: compiler ");
    text.append(producer);
    if let Some(version) = platform_tools {
        text.append(", platform-tools ");
        text.append(version);
    }
    text.append(", toolchain ");
    text.append(toolchain);
    assert(text@ =~= toolchain_text(
        file_name@,
        producer@,
        (toolchain@, str_view(platform_tools)),
    ));
    text
}

/// Where the sources of the standard library lie, given what the compiler says of its root directory.
pub fn rust_src_root(sysroot: &str) -> (root: String)
    ensures
        root@ == trim(sysroot@) + "/lib/rustlib/src/rust"@,
{
    let chars = chars_of(sysroot);
    let mut root = string_of(trim_chars(chars.as_slice()));
    root.append("/lib/rustlib/src/rust");
    root
}

/// The directory under which the platform tools are installed.
pub fn tools_dir(home: &str) -> (dir: String)
    ensures
        dir@ == home@ + "/.cache/solana"@,
{
    let mut dir = home.to_owned();
    dir.append("/.cache/solana");
    dir
}

/// The compiler of a version of the platform tools.
pub fn tools_rustc(dir: &str, version: &str) -> (path: String)
    ensures
        path@ == dir@ + "/"@ + version@ + "/platform-tools/rust/bin/rustc"@,
{
    let mut path = dir.to_owned();
    path.append("/");
    path.append(version);
    path.append("/platform-tools/rust/bin/rustc");
    path
}

/// The list of the commits that a version of the platform tools was made from.
pub fn tools_version_file(dir: &str, version: &str) -> (path: String)
    ensures
        path@ == dir@ + "/"@ + version@ + "/platform-tools/version.md"@,
{
    let mut path = dir.to_owned();
    path.append("/");
    path.append(version);
    path.append("/platform-tools/version.md");
    path
}

/// The home directory of Cargo, where the sources of dependencies lie: `CARGO_HOME` where it is set,
/// and otherwise `.cargo` in the user's home directory.
pub fn cargo_home(var: Option<&str>, home: Option<&str>) -> (dir: String)
    requires
        var is Some || home is Some,
    ensures
        dir@ == match var {
            Some(dir) => dir@,
            None => home->0@ + "/.cargo"@,
        },
{
    match var {
        Some(dir) => dir.to_owned(),
        None => {
            let mut dir = String::new();
            if let Some(home) = home {
                dir.append(home);
            }
            dir.append("/.cargo");
            assert(dir@ =~= home->0@ + "/.cargo"@);
            dir
        },
    }
}

/// Where a Cargo directory with sources begins in a path: at the registry, or else at the checkouts.
pub open spec fn cargo_position(path: Seq<char>) -> Option<int> {
    match find(path, ".cargo/registry/"@) {
        Some(i) => Some(i),
        None => find(path, ".cargo/git/"@),
    }
}

/// The local path of a source file: a file of the standard library lies under the sources of the
/// toolchain where these are known, a file of a dependency under the home directory of Cargo, and
/// any other file where the debug information says.
pub open spec fn mapped_path(
    dwarf_path: Seq<char>,
    rust_src_root: Option<Seq<char>>,
    cargo_root: Seq<char>,
) -> Seq<char> {
    if rust_src_root is Some && find(dwarf_path, "/library/"@) is Some {
        rust_src_root->0 + "/"@ + dwarf_path.skip(find(dwarf_path, "/library/"@)->0)
    } else if cargo_position(dwarf_path) is Some {
        cargo_root + "/"@ + dwarf_path.skip(cargo_position(dwarf_path)->0 + ".cargo/"@.len())
    } else {
        dwarf_path
    }
}

/// Joins a directory and the end of a path.
fn join_path(dir: &str, end: &[char]) -> (path: String)
    ensures
        path@ == dir@ + "/"@ + end@,
{
    let mut path = dir.to_owned();
    path.append("/");
    let end = string_of(end);
    path.append(end.as_str());
    path
}

/// Maps the path of a source file as the debug information records it to a local path.
pub fn map_dwarf_path(
    dwarf_path: &str,
    rust_src_root: Option<&str>,
    cargo_root: &str,
) -> (path: String)
    ensures
        path@ == mapped_path(dwarf_path@, str_view(rust_src_root), cargo_root@),
{
    let chars = chars_of(dwarf_path);
    let len: usize = chars.len();
    let library = chars_of("/library/");
    let registry = chars_of(".cargo/registry/");
    let git = chars_of(".cargo/git/");
    proof {
        lemma_find(chars@, library@);
        lemma_find(chars@, registry@);
        lemma_find(chars@, git@);
        reveal_strlit(".cargo/");
        reveal_strlit(".cargo/registry/");
        reveal_strlit(".cargo/git/");
    }
    if let Some(root) = rust_src_root {
        if let Some(pos) = find_chars(chars.as_slice(), library.as_slice()) {
            let end = slice_subrange(chars.as_slice(), pos, len);
            assert(end@ =~= dwarf_path@.skip(pos as int));
            return join_path(root, end);
        }
    }
    let pos = match find_chars(chars.as_slice(), registry.as_slice()) {
        Some(pos) => Some(pos),
        None => find_chars(chars.as_slice(), git.as_slice()),
    };
    match pos {
        Some(pos) => {
            let end = slice_subrange(chars.as_slice(), pos + 7, len);
            assert(end@ =~= dwarf_path@.skip(pos + ".cargo/"@.len()));
            join_path(cargo_root, end)
        },
        None => dwarf_path.to_owned(),
    }
}

/// A path that names neither the standard library nor a Cargo directory is not mapped.
pub proof fn law_other_paths_stay(
    dwarf_path: Seq<char>,
    rust_src_root: Option<Seq<char>>,
    cargo_root: Seq<char>,
)
    requires
        rust_src_root is None || !contains(dwarf_path, "/library/"@),
        !contains(dwarf_path, ".cargo/registry/"@),
        !contains(dwarf_path, ".cargo/git/"@),
    ensures
        mapped_path(dwarf_path, rust_src_root, cargo_root) == dwarf_path,
{
}

/// A mapped path lies under the sources of the toolchain or under the home directory of Cargo, and it
/// ends like the path that the debug information records.
pub proof fn law_mapped_paths(
    dwarf_path: Seq<char>,
    rust_src_root: Option<Seq<char>>,
    cargo_root: Seq<char>,
)
    ensures
        ({
            let path = mapped_path(dwarf_path, rust_src_root, cargo_root);
            ||| path == dwarf_path
            ||| rust_src_root is Some && exists|i: int|
                0 <= i <= dwarf_path.len() && path == rust_src_root->0 + "/"@
                    + #[trigger] dwarf_path.skip(i)
            ||| exists|i: int|
                0 <= i <= dwarf_path.len() && path == cargo_root + "/"@
                    + #[trigger] dwarf_path.skip(i)
        }),
{
    lemma_find(dwarf_path, "/library/"@);
    lemma_find(dwarf_path, ".cargo/registry/"@);
    lemma_find(dwarf_path, ".cargo/git/"@);
    reveal_strlit(".cargo/");
    reveal_strlit(".cargo/registry/");
    reveal_strlit(".cargo/git/");
}

/// The only dot of a Cargo directory name stands at its begin, so where `.cargo/` follows a text in
/// which the name does not occur, it occurs there first.
proof fn lemma_first_after(head: Seq<char>, end: Seq<char>, pat: Seq<char>)
    requires
        pat.len() > 7,
        pat.take(7) == ".cargo/"@,
        forall|i: int| 0 < i < pat.len() ==> #[trigger] pat[i] != '.',
        !contains(head, pat),
        starts_with(end, pat.skip(7)),
    ensures
        find(head + ".cargo/"@ + end, pat) == Some(head.len() as int),
{
    reveal_strlit(".cargo/");
    let s = head + ".cargo/"@ + end;
    let h = head.len() as int;
    lemma_find(s, pat);
    assert(pat =~= pat.take(7) + pat.skip(7));
    assert(end.subrange(0, pat.len() - 7) =~= pat.skip(7));
    assert(s.subrange(h, h + pat.len()) =~= ".cargo/"@ + end.subrange(0, pat.len() - 7));
    assert(occurs_at(s, pat, h));
    assert forall|j: int| 0 <= j < h implies !occurs_at(s, pat, j) by {
        lemma_not_before(head, end, pat, j);
    }
    assert(first_at(s, pat, h));
}

/// A Cargo directory name does not occur across the begin of `.cargo/`.
proof fn lemma_not_before(head: Seq<char>, end: Seq<char>, pat: Seq<char>, j: int)
    requires
        pat.len() > 0,
        forall|i: int| 0 < i < pat.len() ==> #[trigger] pat[i] != '.',
        !contains(head, pat),
        0 <= j < head.len(),
    ensures
        !occurs_at(head + ".cargo/"@ + end, pat, j),
{
    reveal_strlit(".cargo/");
    let s = head + ".cargo/"@ + end;
    let h = head.len() as int;
    if occurs_at(s, pat, j) {
        if j + pat.len() <= h {
            assert(head.subrange(j, j + pat.len()) =~= s.subrange(j, j + pat.len()));
            assert(occurs_at(head, pat, j));
        } else {
            assert(s[h] == '.');
            assert(s.subrange(j, j + pat.len())[h - j] == s[h]);
            assert(pat[h - j] != '.');
        }
    }
}

/// A part of a text in which a name does not occur does not hold it either.
proof fn lemma_not_in_part(s: Seq<char>, pat: Seq<char>, k: int)
    requires
        0 <= k <= s.len(),
        !contains(s, pat),
    ensures
        !contains(s.skip(k), pat),
{
    if contains(s.skip(k), pat) {
        let i = choose|i: int| occurs_at(s.skip(k), pat, i);
        assert(s.skip(k).subrange(i, i + pat.len()) =~= s.subrange(i + k, i + k + pat.len()));
        assert(occurs_at(s, pat, i + k));
    }
}

/// The Cargo directory of a path that leads to the registry in a home directory.
proof fn lemma_registry_position(head: Seq<char>, end: Seq<char>)
    requires
        !contains(head, ".cargo/registry/"@),
        starts_with(end, ".cargo/registry/"@.skip(7)),
    ensures
        cargo_position(head + ".cargo/"@ + end) == Some(head.len() as int),
{
    reveal_strlit(".cargo/");
    reveal_strlit(".cargo/registry/");
    assert(".cargo/registry/"@.take(7) =~= ".cargo/"@);
    lemma_first_after(head, end, ".cargo/registry/"@);
}

/// The registry does not occur in a path that leads to the checkouts in a home directory.
proof fn lemma_no_registry(head: Seq<char>, end: Seq<char>)
    requires
        !contains(head, ".cargo/registry/"@),
        !contains(end, ".cargo/registry/"@),
        end.len() > 0,
        end[0] == 'g',
    ensures
        !contains(head + ".cargo/"@ + end, ".cargo/registry/"@),
{
    reveal_strlit(".cargo/");
    reveal_strlit(".cargo/registry/");
    let registry = ".cargo/registry/"@;
    let s = head + ".cargo/"@ + end;
    let h = head.len() as int;
    assert forall|j: int| !occurs_at(s, registry, j) by {
        if occurs_at(s, registry, j) {
            let found = s.subrange(j, j + 16);
            if j < h {
                lemma_not_before(head, end, registry, j);
            } else if j < h + 7 {
                assert(found[0] == s[j]);
                assert(s[j] == ".cargo/"@[j - h]);
                assert(found[7] == s[h + 7]);
                assert(s[h + 7] == end[0]);
            } else {
                assert(found =~= end.subrange(j - h - 7, j - h - 7 + 16));
                assert(occurs_at(end, registry, j - h - 7));
            }
        }
    }
}

/// The Cargo directory of a path that leads to the checkouts in a home directory.
proof fn lemma_git_position(head: Seq<char>, end: Seq<char>)
    requires
        !contains(head, ".cargo/registry/"@),
        !contains(head, ".cargo/git/"@),
        !contains(end, ".cargo/registry/"@),
        starts_with(end, ".cargo/git/"@.skip(7)),
    ensures
        cargo_position(head + ".cargo/"@ + end) == Some(head.len() as int),
{
    reveal_strlit(".cargo/");
    reveal_strlit(".cargo/git/");
    assert(".cargo/git/"@.take(7) =~= ".cargo/"@);
    assert(end.subrange(0, 4)[0] == end[0]);
    lemma_first_after(head, end, ".cargo/git/"@);
    lemma_no_registry(head, end);
}

/// What follows an occurrence of `.cargo/` begins with the rest of what occurs.
proof fn lemma_rest(s: Seq<char>, pat: Seq<char>, pos: int)
    requires
        pat.len() >= 7,
        occurs_at(s, pat, pos),
    ensures
        starts_with(s.skip(pos + 7), pat.skip(7)),
{
    let end = s.skip(pos + 7);
    let n = pat.len() as int;
    assert(end.subrange(0, n - 7) =~= s.subrange(pos, pos + n).skip(7));
}

/// Mapping the path of a dependency a second time changes nothing, if Cargo has its usual home directory
/// `.cargo` and that does not lie in another Cargo directory itself.
pub proof fn law_cargo_paths_map_once(
    dwarf_path: Seq<char>,
    rust_src_root: Option<Seq<char>>,
    home: Seq<char>,
)
    requires
        !contains(home + "/"@, ".cargo/registry/"@),
        !contains(home + "/"@, ".cargo/git/"@),
        cargo_position(dwarf_path) is Some,
        rust_src_root is Some ==> !contains(dwarf_path, "/library/"@) && !contains(
            mapped_path(dwarf_path, rust_src_root, home + "/.cargo"@),
            "/library/"@,
        ),
    ensures
        ({
            let root = home + "/.cargo"@;
            let once = mapped_path(dwarf_path, rust_src_root, root);
            mapped_path(once, rust_src_root, root) == once
        }),
{
    let root = home + "/.cargo"@;
    let head = home + "/"@;
    let pos = cargo_position(dwarf_path)->0;
    let end = dwarf_path.skip(pos + 7);
    let once = mapped_path(dwarf_path, rust_src_root, root);
    lemma_find(dwarf_path, ".cargo/registry/"@);
    lemma_find(dwarf_path, ".cargo/git/"@);
    assert(".cargo/"@.len() == 7 && ".cargo/registry/"@.len() == 16 && ".cargo/git/"@.len() == 11)
        by {
        reveal_strlit(".cargo/");
        reveal_strlit(".cargo/registry/");
        reveal_strlit(".cargo/git/");
    }
    assert(once == root + "/"@ + end);
    assert(once == head + ".cargo/"@ + end) by {
        reveal_strlit("/");
        reveal_strlit("/.cargo");
        reveal_strlit(".cargo/");
        assert(once =~= head + ".cargo/"@ + end);
    }
    if find(dwarf_path, ".cargo/registry/"@) is Some {
        lemma_rest(dwarf_path, ".cargo/registry/"@, pos);
        lemma_registry_position(head, end);
    } else {
        lemma_rest(dwarf_path, ".cargo/git/"@, pos);
        lemma_not_in_part(dwarf_path, ".cargo/registry/"@, pos + 7);
        lemma_git_position(head, end);
    }
    assert(once.skip(head.len() as int + 7) =~= end);
}

} // verus!
