//! The session that a subcommand evaluates in: its limits, its policies, its source paths, and
//! the call of the program's entry point.

use vstd::prelude::*;
use crate::process::word_texts;
use crate::text::{chars_of, push_text, same_text, text_copy};
use crate::value::lemma_views;
use crate::value::Value;

verus! {

// ---------------------------------------------------------------------------
// Limits and policies
// ---------------------------------------------------------------------------

/// The memory limits of the collector, in bytes.
#[derive(Clone, Copy, Debug, PartialEq, Eq, Structural)]
pub enum GcConfig {
    /// The built-in limits.
    Standard,
    /// A hard limit; the soft limit follows from it.
    HardLimit(usize),
    Limits { soft: usize, hard: usize },
}

/// A limit given in megabytes can be counted in bytes.
pub open spec fn countable_limit(mb: Option<usize>) -> bool {
    mb matches Some(n) ==> n * 1024 * 1024 <= usize::MAX
}

/// The limits of the collector from the command line, where each may be given in megabytes. A
/// single limit is a hard one.
pub fn build_gc_config(soft_limit_mb: Option<usize>, hard_limit_mb: Option<usize>) -> (r: GcConfig)
    requires
        countable_limit(soft_limit_mb),
        countable_limit(hard_limit_mb),
    ensures
        r == (match (soft_limit_mb, hard_limit_mb) {
            (Some(soft), Some(hard)) => GcConfig::Limits {
                soft: (soft * 1024 * 1024) as usize,
                hard: (hard * 1024 * 1024) as usize,
            },
            (Some(soft), None) => GcConfig::HardLimit((soft * 1024 * 1024) as usize),
            (None, Some(hard)) => GcConfig::HardLimit((hard * 1024 * 1024) as usize),
            (None, None) => GcConfig::Standard,
        }),
{
    match (soft_limit_mb, hard_limit_mb) {
        (Some(soft), Some(hard)) => GcConfig::Limits {
            soft: soft * 1024 * 1024,
            hard: hard * 1024 * 1024,
        },
        (Some(soft), None) => GcConfig::HardLimit(soft * 1024 * 1024),
        (None, Some(hard)) => GcConfig::HardLimit(hard * 1024 * 1024),
        (None, None) => GcConfig::Standard,
    }
}

/// The versioned-symbol policy flags.
#[derive(Clone, Copy, Debug, PartialEq, Eq, Structural)]
pub struct VersioningFlags {
    pub verify_commit_signatures: bool,
    pub enforce_native_versions: bool,
}

impl VersioningFlags {
    /// The flags together with those of the project's configuration: either may set one, neither
    /// clears one.
    pub fn merged(&self, config: &VersioningFlags) -> (r: VersioningFlags)
        ensures
            r.verify_commit_signatures == (self.verify_commit_signatures
                || config.verify_commit_signatures),
            r.enforce_native_versions == (self.enforce_native_versions
                || config.enforce_native_versions),
    {
        VersioningFlags {
            verify_commit_signatures: self.verify_commit_signatures
                || config.verify_commit_signatures,
            enforce_native_versions: self.enforce_native_versions || config.enforce_native_versions,
        }
    }
}

/// Whether a compiler tier is attached, and the call count at which it takes over, where one is
/// set.
#[derive(Clone, Copy, Debug, PartialEq, Eq, Structural)]
pub struct JitPolicy {
    pub enabled: bool,
    pub threshold: Option<u32>,
}

/// The compiler policy, where `switched_off` says whether the environment disables the tier: it
/// is on by default, and a threshold of 0 disables it too.
pub fn configure_jit(switched_off: bool, threshold: Option<u32>) -> (r: JitPolicy)
    ensures
        r == (if switched_off || threshold == Some(0u32) {
            JitPolicy { enabled: false, threshold: None }
        } else {
            JitPolicy { enabled: true, threshold }
        }),
{
    if switched_off {
        return JitPolicy { enabled: false, threshold: None };
    }
    match threshold {
        Some(t) => if t == 0 {
            JitPolicy { enabled: false, threshold: None }
        } else {
            JitPolicy { enabled: true, threshold: Some(t) }
        },
        None => JitPolicy { enabled: true, threshold: None },
    }
}

// ---------------------------------------------------------------------------
// Source paths
// ---------------------------------------------------------------------------

/// The paths with more of them: each that is not there yet, in order.
pub open spec fn paths_with(paths: Seq<Seq<char>>, more: Seq<Seq<char>>) -> Seq<Seq<char>>
    decreases more.len(),
{
    if more.len() == 0 {
        paths
    } else {
        let before = paths_with(paths, more.drop_last());
        if before.contains(more.last()) {
            before
        } else {
            before.push(more.last())
        }
    }
}

fn has_path(paths: &Vec<String>, p: &str) -> (r: bool)
    ensures
        r == word_texts(paths@).contains(p@),
{
    for i in 0..paths.len()
        invariant
            forall|j: int| 0 <= j < i ==> (#[trigger] paths@[j])@ != p@,
    {
        if same_text(paths[i].as_str(), p) {
            assert(word_texts(paths@)[i as int] == p@);
            return true;
        }
    }
    proof {
        if word_texts(paths@).contains(p@) {
            let j = choose|j: int|
                0 <= j < word_texts(paths@).len() && word_texts(paths@)[j] == p@;
            assert(paths@[j]@ == p@);
        }
    }
    false
}

/// Add paths, each that is not there yet.
pub fn add_paths(paths: &mut Vec<String>, more: &Vec<String>)
    ensures
        word_texts(final(paths)@) == paths_with(word_texts(old(paths)@), word_texts(more@)),
{
    let ghost first = word_texts(paths@);
    let ghost all = word_texts(more@);
    assert(all.take(0) =~= Seq::empty());
    for i in 0..more.len()
        invariant
            all == word_texts(more@),
            word_texts(paths@) == paths_with(first, all.take(i as int)),
    {
        assert(all.take(i + 1).drop_last() =~= all.take(i as int));
        assert(all.take(i + 1).last() == more@[i as int]@);
        if !has_path(paths, more[i].as_str()) {
            let ghost before = word_texts(paths@);
            paths.push(more[i].clone());
            assert(word_texts(paths@) =~= before.push(more@[i as int]@));
        }
    }
    assert(all.take(all.len() as int) =~= all);
}

/// The source roots that a dependency contributes: those of its configuration, else the
/// conventional one.
pub fn dep_source_paths(configured: Option<Vec<String>>, conventional: String) -> (r: Vec<String>)
    ensures
        word_texts(r@) == (match configured {
            Some(paths) => if paths@.len() > 0 {
                word_texts(paths@)
            } else {
                seq![conventional@]
            },
            None => seq![conventional@],
        }),
{
    if let Some(paths) = configured {
        if paths.len() > 0 {
            return paths;
        }
    }
    let mut out: Vec<String> = Vec::new();
    let ghost c = conventional@;
    out.push(conventional);
    assert(word_texts(out@) =~= seq![c]);
    out
}

/// What was found of a declared dependency.
#[derive(Debug)]
pub enum DepOutcome {
    /// Its source roots that are directories.
    Found(Vec<String>),
    /// A local one without a directory at its root.
    LocalMissing { root: String },
    /// A git one that the cache does not hold.
    GitMissing { url: String, cause: String },
}

/// The warning about a dependency that is not there.
pub open spec fn dep_warning(name: Seq<char>, outcome: DepOutcome) -> Option<Seq<char>> {
    match outcome {
        DepOutcome::Found(_) => None,
        DepOutcome::LocalMissing { root } => Some(
            "cljrs: warning: local dep "@ + name + " not found at "@ + root@,
        ),
        DepOutcome::GitMissing { url, cause } => Some(
            "cljrs: warning: git dep "@ + name + " ("@ + url@ + ") is not available ("@ + cause@
                + "); run `cljrs deps fetch`"@,
        ),
    }
}

/// The source paths that dependencies contribute.
pub open spec fn dep_paths(deps: Seq<(String, DepOutcome)>) -> Seq<Seq<char>>
    decreases deps.len(),
{
    if deps.len() == 0 {
        Seq::empty()
    } else {
        match deps.last().1 {
            DepOutcome::Found(roots) => paths_with(
                dep_paths(deps.drop_last()),
                word_texts(roots@),
            ),
            _ => dep_paths(deps.drop_last()),
        }
    }
}

/// The warnings about dependencies.
pub open spec fn dep_warnings(deps: Seq<(String, DepOutcome)>) -> Seq<Seq<char>>
    decreases deps.len(),
{
    if deps.len() == 0 {
        Seq::empty()
    } else {
        match dep_warning(deps.last().0@, deps.last().1) {
            Some(w) => dep_warnings(deps.drop_last()).push(w),
            None => dep_warnings(deps.drop_last()),
        }
    }
}

/// The source paths that dependencies contribute, each once, and the warnings about those that
/// are not there.
pub fn collect_dep_src_paths(deps: &Vec<(String, DepOutcome)>) -> (r: (Vec<String>, Vec<String>))
    ensures
        word_texts(r.0@) == dep_paths(deps@),
        word_texts(r.1@) == dep_warnings(deps@),
{
    let mut paths: Vec<String> = Vec::new();
    let mut warnings: Vec<String> = Vec::new();
    assert(deps@.take(0) =~= Seq::empty());
    assert(word_texts(paths@) =~= Seq::empty());
    assert(word_texts(warnings@) =~= Seq::empty());
    for i in 0..deps.len()
        invariant
            word_texts(paths@) == dep_paths(deps@.take(i as int)),
            word_texts(warnings@) == dep_warnings(deps@.take(i as int)),
    {
        assert(deps@.take(i + 1).drop_last() =~= deps@.take(i as int));
        assert(deps@.take(i + 1).last() == deps@[i as int]);
        let ghost before = word_texts(warnings@);
        let name = deps[i].0.as_str();
        match &deps[i].1 {
            DepOutcome::Found(roots) => {
                add_paths(&mut paths, roots);
            },
            DepOutcome::LocalMissing { root } => {
                let mut w = text_copy("cljrs: warning: local dep ");
                push_text(&mut w, name);
                push_text(&mut w, " not found at ");
                push_text(&mut w, root.as_str());
                let ghost added = w@;
                warnings.push(w);
                assert(word_texts(warnings@) =~= before.push(added));
            },
            DepOutcome::GitMissing { url, cause } => {
                let mut w = text_copy("cljrs: warning: git dep ");
                push_text(&mut w, name);
                push_text(&mut w, " (");
                push_text(&mut w, url.as_str());
                push_text(&mut w, ") is not available (");
                push_text(&mut w, cause.as_str());
                push_text(&mut w, "); run `cljrs deps fetch`");
                let ghost added = w@;
                warnings.push(w);
                assert(word_texts(warnings@) =~= before.push(added));
            },
        }
    }
    assert(deps@.take(deps@.len() as int) =~= deps@);
    (paths, warnings)
}

// ---------------------------------------------------------------------------
// Namespaces of files
// ---------------------------------------------------------------------------

/// The position of the last dot of a name.
pub open spec fn last_dot(s: Seq<char>) -> Option<int>
    decreases s.len(),
{
    if s.len() == 0 {
        None
    } else if s.last() == '.' {
        Some(s.len() - 1)
    } else {
        last_dot(s.drop_last())
    }
}

/// A file name without its extension: what stands from the last dot on goes, unless that dot is
/// the first character. The names `.` and `..` have no extension.
pub open spec fn file_stem(name: Seq<char>) -> Seq<char> {
    if name == ".."@ {
        name
    } else {
        match last_dot(name) {
            Some(i) => if i == 0 {
                name
            } else {
                name.take(i)
            },
            None => name,
        }
    }
}

/// The text with each underscore turned into a dash.
pub open spec fn dashed(s: Seq<char>) -> Seq<char> {
    s.map_values(
        |c: char|
            if c == '_' {
                '-'
            } else {
                c
            },
    )
}

/// The components, with dots between.
pub open spec fn dotted(parts: Seq<Seq<char>>) -> Seq<char>
    decreases parts.len(),
{
    if parts.len() == 0 {
        Seq::empty()
    } else if parts.len() == 1 {
        dashed(parts[0])
    } else {
        dotted(parts.drop_last()) + "."@ + dashed(parts.last())
    }
}

/// The components of a path below a root, the last without its extension.
pub open spec fn stems(rel: Seq<Seq<char>>) -> Seq<Seq<char>> {
    if rel.len() == 0 {
        rel
    } else {
        rel.drop_last().push(file_stem(rel.last()))
    }
}

/// The namespace of a file below a source root, by the components of their paths.
pub open spec fn namespace_of(root: Seq<Seq<char>>, file: Seq<Seq<char>>) -> Option<Seq<char>> {
    if root.len() <= file.len() && file.take(root.len() as int) == root {
        Some(dotted(stems(file.skip(root.len() as int))))
    } else {
        None
    }
}

fn push_dashed(out: &mut String, s: &str, upto: Option<usize>)
    requires
        upto matches Some(n) ==> n <= s@.len(),
    ensures
        final(out)@ == old(out)@ + dashed(
            match upto {
                Some(n) => s@.take(n as int),
                None => s@,
            },
        ),
{
    let chars = chars_of(s);
    let end: usize = match upto {
        Some(n) => n,
        None => chars.len(),
    };
    let ghost before = out@;
    let ghost part = s@.take(end as int);
    assert(upto is None ==> part =~= s@);
    assert(before + dashed(part).take(0) =~= before);
    for i in 0..end
        invariant
            end <= chars@.len(),
            chars@ == s@,
            part == s@.take(end as int),
            out@ == before + dashed(part).take(i as int),
    {
        let c: char = chars[i];
        if c == '_' {
            out.push('-');
        } else {
            out.push(c);
        }
        assert(dashed(part)[i as int] == (if c == '_' {
            '-'
        } else {
            c
        }));
        assert(before + dashed(part).take(i + 1) =~= (before + dashed(part).take(i as int)).push(
            dashed(part)[i as int],
        ));
    }
    assert(dashed(part).take(end as int) =~= dashed(part));
}

fn stem_end(name: &str) -> (r: Option<usize>)
    ensures
        match r {
            Some(n) => n <= name@.len() && file_stem(name@) == name@.take(n as int),
            None => file_stem(name@) == name@,
        },
{
    if same_text(name, "..") {
        return None;
    }
    let chars = chars_of(name);
    let mut end: usize = chars.len();
    assert(chars@.take(end as int) =~= chars@);
    while end > 0 && chars[end - 1] != '.'
        invariant
            end <= chars@.len(),
            last_dot(chars@) == last_dot(chars@.take(end as int)),
        decreases end,
    {
        assert(chars@.take(end as int).drop_last() =~= chars@.take(end - 1));
        end = end - 1;
    }
    if end == 0 {
        return None;
    }
    assert(chars@.take(end as int).last() == '.');
    if end == 1 {
        return None;
    }
    Some(end - 1)
}

/// The namespace of a file below a source root, by the components of their paths; the root
/// directory is a component without text. Directories are set apart by dots, and underscores
/// become dashes.
pub fn file_to_namespace(root: &Vec<String>, file: &Vec<String>) -> (r: Option<String>)
    ensures
        (match r {
            Some(s) => Some(s@),
            None => None,
        }) == namespace_of(word_texts(root@), word_texts(file@)),
{
    let ghost top = word_texts(root@);
    let ghost all = word_texts(file@);
    if root.len() > file.len() {
        return None;
    }
    for i in 0..root.len()
        invariant
            root@.len() <= file@.len(),
            top == word_texts(root@),
            all == word_texts(file@),
            forall|j: int| 0 <= j < i ==> #[trigger] top[j] == all[j],
    {
        if !same_text(root[i].as_str(), file[i].as_str()) {
            assert(all.take(top.len() as int)[i as int] != top[i as int]);
            return None;
        }
    }
    assert(all.take(top.len() as int) =~= top);
    let from: usize = root.len();
    let ghost rel = all.skip(from as int);
    let ghost parts = stems(rel);
    let mut out = String::new();
    assert(out@ =~= dotted(parts.take(0)));
    for i in from..file.len()
        invariant
            from <= file@.len(),
            all == word_texts(file@),
            rel == all.skip(from as int),
            parts == stems(rel),
            out@ == dotted(parts.take(i - from)),
    {
        let ghost seen = parts.take(i + 1 - from);
        assert(seen.drop_last() =~= parts.take(i - from));
        assert(seen.last() == parts[i - from]);
        if i > from {
            push_text(&mut out, ".");
        }
        let ghost before = out@;
        let last: usize = file.len() - 1;
        if i == last {
            let end = stem_end(file[i].as_str());
            push_dashed(&mut out, file[i].as_str(), end);
            assert(parts[i - from] == file_stem(file@[i as int]@));
        } else {
            push_dashed(&mut out, file[i].as_str(), None);
            assert(parts[i - from] == file@[i as int]@);
        }
        assert(out@ == before + dashed(parts[i - from]));
        if i == from {
            assert(seen.len() == 1);
            assert(seen[0] == parts[0]);
            assert(out@ =~= dashed(parts[0]));
        }
    }
    assert(parts.take(parts.len() as int) =~= parts);
    Some(out)
}

// ---------------------------------------------------------------------------
// The entry point
// ---------------------------------------------------------------------------

/// A character in a string literal.
pub open spec fn literal_char(c: char) -> Seq<char> {
    if c == '"' {
        seq!['\\', '"']
    } else if c == '\\' {
        seq!['\\', '\\']
    } else if c == '\n' {
        seq!['\\', 'n']
    } else if c == '\r' {
        seq!['\\', 'r']
    } else if c == '\t' {
        seq!['\\', 't']
    } else {
        seq![c]
    }
}

/// A text between the quotes of a string literal.
pub open spec fn literal_text(s: Seq<char>) -> Seq<char>
    decreases s.len(),
{
    if s.len() == 0 {
        Seq::empty()
    } else {
        literal_text(s.drop_last()) + literal_char(s.last())
    }
}

/// A string literal.
pub open spec fn literal(s: Seq<char>) -> Seq<char> {
    seq!['"'] + literal_text(s) + seq!['"']
}

fn push_literal_char(out: &mut String, c: char)
    ensures
        final(out)@ == old(out)@ + literal_char(c),
{
    let ghost before = out@;
    if c == '"' {
        out.push('\\');
        out.push('"');
    } else if c == '\\' {
        out.push('\\');
        out.push('\\');
    } else if c == '\n' {
        out.push('\\');
        out.push('n');
    } else if c == '\r' {
        out.push('\\');
        out.push('r');
    } else if c == '\t' {
        out.push('\\');
        out.push('t');
    } else {
        out.push(c);
    }
    assert(out@ =~= before + literal_char(c));
}

/// The string literal of a text.
pub fn escape_clojure_string(s: &str) -> (r: String)
    ensures
        r@ == literal(s@),
{
    let chars = chars_of(s);
    let mut out = String::new();
    out.push('"');
    assert(chars@.take(0) =~= Seq::empty());
    assert(out@ =~= seq!['"'] + literal_text(chars@.take(0)));
    for i in 0..chars.len()
        invariant
            out@ == seq!['"'] + literal_text(chars@.take(i as int)),
    {
        assert(chars@.take(i + 1).drop_last() =~= chars@.take(i as int));
        assert(chars@.take(i + 1).last() == chars@[i as int]);
        let ghost before = literal_text(chars@.take(i as int));
        push_literal_char(&mut out, chars[i]);
        assert(seq!['"'] + before + literal_char(chars@[i as int]) =~= seq!['"'] + (before
            + literal_char(chars@[i as int])));
    }
    assert(chars@.take(chars@.len() as int) =~= chars@);
    out.push('"');
    assert(out@ =~= literal(s@));
    out
}

/// The literals of texts, with spaces between.
pub open spec fn literals(args: Seq<Seq<char>>) -> Seq<char>
    decreases args.len(),
{
    if args.len() == 0 {
        Seq::empty()
    } else if args.len() == 1 {
        literal(args[0])
    } else {
        literals(args.drop_last()) + " "@ + literal(args.last())
    }
}

/// The form that calls the program's entry point with string arguments.
pub fn main_call(args: &Vec<String>) -> (r: String)
    ensures
        r@ == "(-main "@ + literals(word_texts(args@)) + ")"@,
{
    let ghost all = word_texts(args@);
    let mut list = String::new();
    assert(list@ =~= literals(all.take(0)));
    for i in 0..args.len()
        invariant
            all == word_texts(args@),
            list@ == literals(all.take(i as int)),
    {
        let ghost seen = all.take(i + 1);
        assert(seen.drop_last() =~= all.take(i as int));
        assert(seen.last() == args@[i as int]@);
        if i > 0 {
            push_text(&mut list, " ");
        }
        let ghost before = list@;
        push_text(&mut list, escape_clojure_string(args[i].as_str()).as_str());
        if i == 0 {
            assert(seen.len() == 1);
            assert(list@ =~= literal(seen[0]));
        }
    }
    assert(all.take(all.len() as int) =~= all);
    let mut out = text_copy("(-main ");
    push_text(&mut out, list.as_str());
    push_text(&mut out, ")");
    out
}

/// The form to evaluate after a program was loaded, where `resolved` is what resolving `-main`
/// gave: the call of the entry point, or none where it is not defined or could not be looked up.
pub fn call_main_if_defined(resolved: &Result<Value, String>, args: &Vec<String>) -> (r: Option<
    String,
>)
    ensures
        match *resolved {
            Ok(v) => if v.view() is Nil {
                r is None
            } else {
                r matches Some(call) && call@ == "(-main "@ + literals(word_texts(args@)) + ")"@
            },
            Err(_) => r is None,
        },
{
    match resolved {
        Ok(Value::Nil) => None,
        Ok(v) => {
            proof {
                lemma_views(*v);
            }
            Some(main_call(args))
        },
        Err(_) => None,
    }
}

// ---------------------------------------------------------------------------
// Laws
// ---------------------------------------------------------------------------

/// The character that an escape in a string literal stands for.
pub open spec fn escape_meaning(c: char) -> char {
    if c == 'n' {
        '\n'
    } else if c == 'r' {
        '\r'
    } else if c == 't' {
        '\t'
    } else {
        c
    }
}

/// The text that stands between the quotes of a string literal.
pub open spec fn read_literal(s: Seq<char>) -> Seq<char>
    decreases s.len(),
{
    if s.len() == 0 {
        Seq::empty()
    } else if s[0] == '\\' && s.len() >= 2 {
        seq![escape_meaning(s[1])] + read_literal(s.skip(2))
    } else {
        seq![s[0]] + read_literal(s.skip(1))
    }
}

/// The text between the quotes of a literal splits at a character.
proof fn lemma_literal_first(s: Seq<char>)
    requires
        s.len() > 0,
    ensures
        literal_text(s) == literal_char(s[0]) + literal_text(s.skip(1)),
    decreases s.len(),
{
    if s.len() == 1 {
        assert(s.drop_last() =~= Seq::empty());
        assert(s.skip(1) =~= Seq::empty());
        assert(literal_text(s.drop_last()) + literal_char(s.last()) =~= literal_char(s[0]));
        assert(literal_char(s[0]) + literal_text(s.skip(1)) =~= literal_char(s[0]));
    } else {
        lemma_literal_first(s.drop_last());
        assert(s.drop_last().skip(1) =~= s.skip(1).drop_last());
        assert(s.skip(1).last() == s.last());
        assert(literal_char(s[0]) + literal_text(s.skip(1).drop_last()) + literal_char(s.last())
            =~= literal_char(s[0]) + (literal_text(s.skip(1).drop_last()) + literal_char(
            s.last(),
        )));
    }
}

/// An argument handed to the entry point reads back as the text it was.
pub proof fn law_argument_reads_back(s: Seq<char>)
    ensures
        read_literal(literal_text(s)) == s,
    decreases s.len(),
{
    if s.len() == 0 {
        assert(s =~= Seq::empty());
    } else {
        lemma_literal_first(s);
        law_argument_reads_back(s.skip(1));
        let rest = literal_text(s.skip(1));
        let whole = literal_text(s);
        assert(seq![s[0]] + s.skip(1) =~= s);
        let head = literal_char(s[0]);
        if head.len() == 2 {
            assert(whole.skip(2) =~= rest);
            assert(whole[0] == '\\' && whole[1] == head[1]);
            assert(escape_meaning(head[1]) == s[0]);
        } else {
            assert(whole.skip(1) =~= rest);
            assert(whole[0] == s[0]);
        }
    }
}

/// However often a path is contributed, it stands in the list once.
pub proof fn law_paths_stay_distinct(paths: Seq<Seq<char>>, more: Seq<Seq<char>>)
    requires
        paths.no_duplicates(),
    ensures
        paths_with(paths, more).no_duplicates(),
    decreases more.len(),
{
    if more.len() > 0 {
        law_paths_stay_distinct(paths, more.drop_last());
    }
}

} // verus!
