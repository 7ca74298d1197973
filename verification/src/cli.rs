//! Decisions of a scan over many files: which directories and files take part, how a file is
//! prepared, and what is said at the end.

use crate::engine;
use crate::engine::{try_scan_file, ScanMatch};
use crate::engine_spec;
use crate::engine_spec::{MatchView, SourceView};
use crate::lex_spec;
use crate::lexer;
use crate::lexer::{LexOutput, Lexer};
use crate::rules::{Rule, Severity};
use crate::scope::{profile_for_ext, python_mode_for_ext, ScopeNode, ScopeParser};
use crate::scope_spec;
use crate::scope_spec::ScopeView;
use crate::text;
use crate::text::{chars_of, push_decimal, split_on, str_eq, trim};
use vstd::prelude::*;
use vstd::string::*;

verus! {

// ---------------------------------------------------------------------------
// Exclusion
// ---------------------------------------------------------------------------

/// The name matches the pattern, in which `*` stands for any sequence of characters without a path
/// separator and every other character for itself.
pub open spec fn glob(pattern: Seq<char>, name: Seq<char>) -> bool
    decreases pattern.len(),
{
    if pattern.len() == 0 {
        name.len() == 0
    } else if pattern.last() == '*' {
        exists|k: int|
            0 <= k <= name.len() && !name.skip(k).contains('/') && glob(
                pattern.drop_last(),
                #[trigger] name.take(k),
            )
    } else {
        name.len() > 0 && name.last() == pattern.last() && glob(
            pattern.drop_last(),
            name.drop_last(),
        )
    }
}

/// A star stands for nothing, or for one more character than it does for a shorter name.
proof fn lemma_glob_star(pattern: Seq<char>, name: Seq<char>)
    requires
        pattern.len() > 0,
        pattern.last() == '*',
    ensures
        glob(pattern, name) == (glob(pattern.drop_last(), name) || (name.len() > 0 && name.last()
            != '/' && glob(pattern, name.drop_last()))),
{
    let p = pattern.drop_last();
    let n = name.len() as int;
    assert(name.take(n) =~= name);
    assert(name.skip(n) =~= seq![]);
    if glob(p, name) {
        assert(glob(p, name.take(n)));
    }
    if n > 0 {
        let short = name.drop_last();
        if name.last() != '/' && glob(pattern, short) {
            let k = choose|k: int|
                0 <= k <= short.len() && !short.skip(k).contains('/') && glob(
                    p,
                    #[trigger] short.take(k),
                );
            assert(name.take(k) =~= short.take(k));
            assert(name.skip(k) =~= short.skip(k).push(name.last()));
            assert(!name.skip(k).contains('/')) by {
                if name.skip(k).contains('/') {
                    let j = choose|j: int| 0 <= j < name.skip(k).len() && name.skip(k)[j] == '/';
                    assert(j < short.skip(k).len());
                    assert(short.skip(k)[j] == '/');
                }
            }
        }
        if glob(pattern, name) && !glob(p, name) {
            let k = choose|k: int|
                0 <= k <= name.len() && !name.skip(k).contains('/') && glob(
                    p,
                    #[trigger] name.take(k),
                );
            assert(k < n);
            assert(name.skip(k)[n - 1 - k] == name.last());
            assert(name.last() != '/');
            assert(short.take(k) =~= name.take(k));
            assert(!short.skip(k).contains('/')) by {
                if short.skip(k).contains('/') {
                    let j = choose|j: int| 0 <= j < short.skip(k).len() && short.skip(k)[j] == '/';
                    assert(name.skip(k)[j] == '/');
                }
            }
            assert(glob(p, short.take(k)));
        }
    } else if glob(pattern, name) {
        let k = choose|k: int|
            0 <= k <= name.len() && !name.skip(k).contains('/') && glob(
                p,
                #[trigger] name.take(k),
            );
        assert(k == 0);
    }
}

/// Match a directory name against a pattern in which `*` stands for any sequence of characters,
/// path separators excluded.
pub fn glob_match(pattern: &str, name: &str) -> (r: bool)
    ensures
        r == glob(pattern@, name@),
{
    let pat = chars_of(pattern);
    let nam = chars_of(name);
    let n: usize = nam.len();
    // `row[j]` tells whether the first characters of the pattern match the first `j` of the name.
    let mut row: Vec<bool> = Vec::new();
    row.push(true);
    let mut j: usize = 0;
    assert(pat@.take(0) =~= seq![]);
    while j < n
        invariant
            nam@.len() == n,
            j <= n,
            row@.len() == j + 1,
            pat@.take(0).len() == 0,
            forall|k: int| 0 <= k <= j ==> #[trigger] row@[k] == glob(pat@.take(0), nam@.take(k)),
        decreases n - j,
    {
        row.push(false);
        j = j + 1;
    }
    let mut i: usize = 0;
    while i < pat.len()
        invariant
            pat@ == pattern@,
            nam@ == name@,
            nam@.len() == n,
            i <= pat@.len(),
            row@.len() == n + 1,
            forall|k: int|
                0 <= k <= n ==> #[trigger] row@[k] == glob(pat@.take(i as int), nam@.take(k)),
        decreases pat@.len() - i,
    {
        let c = pat[i];
        let ghost p0 = pat@.take(i as int);
        let ghost p1 = pat@.take(i + 1);
        let mut next: Vec<bool> = Vec::new();
        let mut k: usize = 0;
        proof {
            assert(p1.drop_last() =~= p0);
            assert(p1.last() == c);
            assert(row@[0] == glob(p0, nam@.take(0)));
            if c == '*' {
                lemma_glob_star(p1, nam@.take(0));
            }
        }
        next.push(c == '*' && row[0]);
        while k < n
            invariant
                nam@.len() == n,
                row@.len() == n + 1,
                p1.len() > 0,
                p1.drop_last() == p0,
                p1.last() == c,
                k <= n,
                next@.len() == k + 1,
                forall|m: int| 0 <= m <= n ==> #[trigger] row@[m] == glob(p0, nam@.take(m)),
                forall|m: int| 0 <= m <= k ==> #[trigger] next@[m] == glob(p1, nam@.take(m)),
            decreases n - k,
        {
            proof {
                let prefix = nam@.take(k + 1);
                assert(row@[k + 1] == glob(p0, prefix));
                assert(prefix.drop_last() =~= nam@.take(k as int));
                assert(prefix.last() == nam@[k as int]);
                assert(next@[k as int] == glob(p1, nam@.take(k as int)));
                assert(row@[k as int] == glob(p0, nam@.take(k as int)));
                if c == '*' {
                    lemma_glob_star(p1, prefix);
                }
            }
            let matched = if c == '*' {
                row[k + 1] || (nam[k] != '/' && next[k])
            } else {
                nam[k] == c && row[k]
            };
            next.push(matched);
            k = k + 1;
        }
        row = next;
        i = i + 1;
    }
    assert(pat@.take(i as int) =~= pat@);
    assert(nam@.take(n as int) =~= nam@);
    row[n]
}

/// Whether one of the patterns matches a directory name.
pub fn is_excluded(patterns: &[String], name: &str) -> (r: bool)
    ensures
        r == exists|i: int| 0 <= i < patterns@.len() && glob((#[trigger] patterns@[i])@, name@),
{
    let mut i: usize = 0;
    while i < patterns.len()
        invariant
            i <= patterns@.len(),
            forall|k: int| 0 <= k < i ==> !glob((#[trigger] patterns@[k])@, name@),
        decreases patterns@.len() - i,
    {
        if glob_match(patterns[i].as_str(), name) {
            return true;
        }
        i = i + 1;
    }
    false
}

/// **Law.** A pattern without stars matches exactly itself.
pub proof fn law_glob_literal(pattern: Seq<char>, name: Seq<char>)
    requires
        !pattern.contains('*'),
    ensures
        glob(pattern, name) == (pattern == name),
    decreases pattern.len(),
{
    if pattern.len() == 0 {
        if name.len() == 0 {
            assert(pattern =~= name);
        }
    } else {
        let p = pattern.drop_last();
        assert(pattern[pattern.len() - 1] == pattern.last());
        assert(pattern.last() != '*');
        assert(!p.contains('*')) by {
            if p.contains('*') {
                let k = choose|k: int| 0 <= k < p.len() && p[k] == '*';
                assert(pattern[k] == '*');
            }
        }
        if name.len() > 0 {
            law_glob_literal(p, name.drop_last());
            assert(pattern =~= p.push(pattern.last()));
            assert(name =~= name.drop_last().push(name.last()));
        }
    }
}

/// **Law.** A pattern with one star matches exactly the names that start with what stands before
/// it and end with what stands behind it, without overlap and without a separator in between.
pub proof fn law_glob_infix(head: Seq<char>, tail: Seq<char>, name: Seq<char>)
    requires
        !head.contains('*'),
        !tail.contains('*'),
    ensures
        glob(head + seq!['*'] + tail, name) == (head.len() + tail.len() <= name.len()
            && name.take(head.len() as int) == head && name.skip(name.len() - tail.len()) == tail
            && !name.subrange(head.len() as int, name.len() - tail.len()).contains('/')),
    decreases tail.len(),
{
    let pattern = head + seq!['*'] + tail;
    if tail.len() == 0 {
        assert(pattern =~= head.push('*'));
        assert(pattern.drop_last() =~= head);
        assert(name.skip(name.len() as int) =~= tail);
        assert forall|k: int| 0 <= k <= name.len() implies glob(head, #[trigger] name.take(k)) == (
        name.take(k) == head) by {
            law_glob_literal(head, name.take(k));
        }
        if head.len() <= name.len() {
            let k = head.len() as int;
            assert(name.skip(k) =~= name.subrange(k, name.len() as int));
            assert(glob(head, name.take(k)) == (name.take(k) == head));
        }
    } else {
        let c = tail.last();
        let t = tail.drop_last();
        assert(tail[tail.len() - 1] == c);
        assert(!t.contains('*')) by {
            if t.contains('*') {
                let k = choose|k: int| 0 <= k < t.len() && t[k] == '*';
                assert(tail[k] == '*');
            }
        }
        assert(pattern.last() == c);
        assert(pattern.drop_last() =~= head + seq!['*'] + t);
        if name.len() > 0 {
            let n = name.drop_last();
            law_glob_infix(head, t, n);
            if head.len() + tail.len() <= name.len() {
                assert(n.take(head.len() as int) =~= name.take(head.len() as int));
                let from = name.len() - tail.len();
                assert(n.subrange(head.len() as int, n.len() - t.len()) =~= name.subrange(
                    head.len() as int,
                    from,
                ));
                assert(name.skip(from) =~= n.skip(from).push(name.last()));
                assert(tail =~= t.push(c));
                if name.skip(from) == tail {
                    assert(n.skip(from) =~= name.skip(from).drop_last());
                    assert(name.skip(from).last() == name.last());
                }
            }
        }
    }
}

// ---------------------------------------------------------------------------
// Selection
// ---------------------------------------------------------------------------

/// The extensions of a comma-separated list, without the white space around them.
pub open spec fn extension_list(list: Seq<char>) -> Seq<Seq<char>> {
    text::pieces(list, ","@).map_values(|p: Seq<char>| text::trimmed(p))
}

/// Parse a comma-separated list of extensions.
pub fn parse_extensions(list: &str) -> (r: Vec<String>)
    ensures
        text::string_views(r@) == extension_list(list@),
{
    proof {
        reveal_strlit(",");
    }
    let parts = split_on(list, ",");
    let ghost views = text::string_views(parts@);
    let mut out: Vec<String> = Vec::new();
    let mut i: usize = 0;
    while i < parts.len()
        invariant
            views == text::string_views(parts@),
            i <= parts@.len(),
            out@.len() == i,
            forall|k: int| 0 <= k < i ==> (#[trigger] out@[k])@ == text::trimmed(views[k]),
        decreases parts@.len() - i,
    {
        assert(views[i as int] == parts@[i as int]@);
        out.push(trim(parts[i].as_str()));
        i = i + 1;
    }
    assert(text::string_views(out@) =~= extension_list(list@));
    out
}

/// Whether a file with this extension is scanned.
pub fn wants_file(all_files: bool, extensions: &[String], ext: &str) -> (r: bool)
    ensures
        r == (all_files || text::string_views(extensions@).contains(ext@)),
{
    if all_files {
        return true;
    }
    let ghost views = text::string_views(extensions@);
    let mut i: usize = 0;
    while i < extensions.len()
        invariant
            views == text::string_views(extensions@),
            i <= extensions@.len(),
            forall|k: int| 0 <= k < i ==> #[trigger] views[k] != ext@,
        decreases extensions@.len() - i,
    {
        assert(views[i as int] == extensions@[i as int]@);
        if str_eq(extensions[i].as_str(), ext) {
            return true;
        }
        i = i + 1;
    }
    false
}

// ---------------------------------------------------------------------------
// One file
// ---------------------------------------------------------------------------

/// The text without a byte order mark at its start.
pub open spec fn without_bom(s: Seq<char>) -> Seq<char> {
    if s.len() > 0 && s[0] == '\u{feff}' {
        s.skip(1)
    } else {
        s
    }
}

/// Strip the byte order mark at the start of a text.
pub fn strip_bom<'a>(raw: &'a str) -> (r: &'a str)
    ensures
        r@ == without_bom(raw@),
        raw@.len() > 0 && raw@[0] == '\u{feff}' ==> r@ == raw@.skip(1),
        raw@.len() == 0 || raw@[0] != '\u{feff}' ==> r@ == raw@,
{
    proof {
        reveal_strlit("\u{feff}");
        assert("\u{feff}"@ =~= seq!['\u{feff}']);
        vstd::utf8::encode_utf8_valid_utf8(raw@);
        if raw@.len() > 0 && raw@[0] == '\u{feff}' {
            lemma_first_char(raw@, '\u{feff}');
        }
    }
    if raw.as_bytes().len() < 3 || !raw.is_char_boundary(3) {
        return raw;
    }
    let (head, rest) = raw.split_at(3);
    proof {
        text::lemma_encode_concat(head@, rest@);
        assert(vstd::utf8::encode_utf8(head@ + rest@) =~= raw.spec_bytes());
        vstd::utf8::encode_utf8_decode_utf8(head@ + rest@);
        vstd::utf8::encode_utf8_decode_utf8(raw@);
        assert(raw@ == head@ + rest@);
    }
    if str_eq(head, "\u{feff}") {
        assert(raw@.skip(1) =~= rest@);
        rest
    } else {
        proof {
            if raw@.len() > 0 && raw@[0] == '\u{feff}' {
                let first = seq!['\u{feff}'];
                assert(raw@ =~= first + raw@.skip(1));
                text::lemma_encode_concat(first, raw@.skip(1));
                assert(vstd::utf8::encode_utf8(first) =~= head.spec_bytes());
                vstd::utf8::encode_utf8_decode_utf8(first);
                vstd::utf8::encode_utf8_decode_utf8(head@);
            }
        }
        raw
    }
}

/// The first character of three bytes ends at a character boundary.
proof fn lemma_first_char(s: Seq<char>, c: char)
    requires
        s.len() > 0,
        s[0] == c,
        0x800 <= (c as u32) < 0xd800 || 0xe000 <= (c as u32) < 0x10000,
    ensures
        vstd::utf8::encode_utf8(s).len() >= 3,
        vstd::utf8::encode_utf8(seq![c]).len() == 3,
        vstd::utf8::is_char_boundary(vstd::utf8::encode_utf8(s), 3),
{
    let bytes = vstd::utf8::encode_utf8(s);
    reveal_with_fuel(vstd::utf8::encode_utf8, 2);
    reveal_with_fuel(vstd::utf8::is_char_boundary, 2);
    vstd::utf8::encode_utf8_valid_utf8(s);
    vstd::utf8::encode_utf8_first_scalar(s);
    assert(vstd::utf8::encode_scalar(c as u32).len() == 3);
}

/// A source as the scan sees it.
pub struct ParsedSource {
    pub lex: LexOutput,
    pub tree: ScopeNode,
}

/// The scope tree of a source with this extension.
pub open spec fn tree_of(source: Seq<u8>, ext: Seq<char>) -> ScopeView {
    scope_spec::scope_tree(
        scope_spec::ext_profile(ext),
        lex_spec::lex(source, scope_spec::is_python_ext(ext)).tokens,
        source.len() as int,
    )
}

fn count_newlines(bytes: &[u8]) -> (r: usize)
    ensures
        r == lex_spec::newlines(bytes@, bytes@.len() as int),
{
    let mut n: usize = 0;
    let mut i: usize = 0;
    while i < bytes.len()
        invariant
            i <= bytes@.len(),
            n <= i,
            n == lex_spec::newlines(bytes@, i as int),
        decreases bytes@.len() - i,
    {
        if bytes[i] == '\n' as u8 {
            n = n + 1;
        }
        i = i + 1;
    }
    n
}

/// Tokenize a source and parse its scopes.  `None` if its lines cannot be numbered.
pub fn parse_source(source: &str, ext: &str) -> (r: Option<ParsedSource>)
    ensures
        r is Some == (lex_spec::line_at(
            source.spec_bytes(),
            source.spec_bytes().len() as int,
        ) <= u32::MAX),
        r matches Some(p) ==> p.lex@ == lex_spec::lex(
            source.spec_bytes(),
            scope_spec::is_python_ext(ext@),
        ) && p.lex.wf() && p.tree@ == tree_of(source.spec_bytes(), ext@),
{
    let bytes = source.as_bytes();
    if count_newlines(bytes) as u64 >= u32::MAX as u64 {
        return None;
    }
    let lex = Lexer::new(source, python_mode_for_ext(ext)).tokenize();
    let tree = ScopeParser::new(profile_for_ext(ext)).parse(lex.tokens.as_slice(), bytes.len());
    Some(ParsedSource { lex, tree })
}

/// A source with the structure that its extension gives it.
pub open spec fn source_of(source: Seq<u8>, ext: Seq<char>) -> SourceView {
    let lex = lex_spec::lex(source, scope_spec::is_python_ext(ext));
    SourceView { bytes: source, comments: lex.comments, strings: lex.strings }
}

/// What a scan of a file reports.
pub open spec fn file_matches(
    raw: Seq<char>,
    path: Seq<char>,
    ext: Seq<char>,
    rules: Seq<Rule>,
) -> Seq<MatchView> {
    let source = vstd::utf8::encode_utf8(without_bom(raw));
    engine_spec::scan_matches(source_of(source, ext), path, tree_of(source, ext), rules)
}

/// A scan of the file can report: its lines can be numbered, and all hits cover whole characters.
pub open spec fn is_reportable(raw: Seq<char>, ext: Seq<char>, rules: Seq<Rule>) -> bool {
    let source = vstd::utf8::encode_utf8(without_bom(raw));
    &&& lex_spec::line_at(source, source.len() as int) <= u32::MAX
    &&& source.len() < usize::MAX
    &&& forall|i: int|
        0 <= i < rules.len() ==> engine_spec::hits_whole(
            source_of(source, ext),
            tree_of(source, ext),
            #[trigger] rules[i],
        )
}

/// Scan the text of a file: strip its byte order mark, parse it as its extension tells, and apply
/// the rules.
pub fn scan_text(raw: &str, path: &str, ext: &str, rules: &[Rule]) -> (r: Option<Vec<ScanMatch>>)
    ensures
        r is Some == is_reportable(raw@, ext@, rules@),
        r matches Some(matches) ==> engine::match_views(matches@) == file_matches(
            raw@,
            path@,
            ext@,
            rules@,
        ),
        r matches Some(matches) ==> forall|k: int|
            0 <= k < matches@.len() ==> engine::is_from(#[trigger] matches@[k], rules@)
                && matches@[k].file@ == path@,
{
    let source = strip_bom(raw);
    match parse_source(source, ext) {
        None => None,
        Some(parsed) => try_scan_file(source, path, &parsed.tree, rules, &parsed.lex),
    }
}

// ---------------------------------------------------------------------------
// Outcome
// ---------------------------------------------------------------------------

/// Number of matches of severity error.
pub open spec fn error_count(matches: Seq<MatchView>) -> nat
    decreases matches.len(),
{
    if matches.len() == 0 {
        0
    } else {
        error_count(matches.drop_last()) + (if matches.last().severity == Severity::Error {
            1nat
        } else {
            0
        })
    }
}

/// Count the matches of severity error.
pub fn count_errors(matches: &[ScanMatch]) -> (r: usize)
    ensures
        r == error_count(engine::match_views(matches@)),
{
    let ghost views = engine::match_views(matches@);
    let mut n: usize = 0;
    let mut i: usize = 0;
    assert(views.take(0) =~= seq![]);
    while i < matches.len()
        invariant
            views == engine::match_views(matches@),
            i <= matches@.len(),
            n <= i,
            n == error_count(views.take(i as int)),
        decreases matches@.len() - i,
    {
        assert(views.take(i + 1).drop_last() =~= views.take(i as int));
        assert(views.take(i + 1).last() == matches@[i as int]@);
        if matches[i].severity == Severity::Error {
            n = n + 1;
        }
        i = i + 1;
    }
    assert(views.take(i as int) =~= views);
    n
}

/// The exit code of a scan: 1 if there is a match of severity error, else 0.
pub fn exit_code(matches: &[ScanMatch]) -> (r: i32)
    ensures
        r == (if exists|i: int|
            0 <= i < matches@.len() && (#[trigger] matches@[i]).severity == Severity::Error {
            1i32
        } else {
            0i32
        }),
{
    let n = count_errors(matches);
    proof {
        let views = engine::match_views(matches@);
        lemma_error_count(views);
        if n > 0 {
            let i = choose|i: int|
                0 <= i < views.len() && (#[trigger] views[i]).severity == Severity::Error;
            assert(matches@[i].severity == Severity::Error);
        } else {
            assert forall|i: int| 0 <= i < matches@.len() implies (#[trigger] matches@[i]).severity
                != Severity::Error by {
                assert(views[i].severity == matches@[i].severity);
            }
        }
    }
    if n > 0 {
        1
    } else {
        0
    }
}

proof fn lemma_error_count(matches: Seq<MatchView>)
    ensures
        (error_count(matches) > 0) == exists|i: int|
            0 <= i < matches.len() && (#[trigger] matches[i]).severity == Severity::Error,
    decreases matches.len(),
{
    if matches.len() > 0 {
        let init = matches.drop_last();
        lemma_error_count(init);
        assert(matches[matches.len() - 1] == matches.last());
        if error_count(init) > 0 {
            let i = choose|i: int|
                0 <= i < init.len() && (#[trigger] init[i]).severity == Severity::Error;
            assert(matches[i].severity == Severity::Error);
        } else {
            assert forall|i: int|
                0 <= i < init.len() implies (#[trigger] matches[i]).severity != Severity::Error by {
                assert(init[i] == matches[i]);
            }
        }
    }
}

/// The line that ends a scan.
pub open spec fn summary_text(files: int, matches: int, errors: int) -> Seq<char> {
    "Scanned "@ + text::decimal(files) + " file(s) \u{2014} "@ + text::decimal(matches)
        + " match(es) ("@ + text::decimal(errors) + " error(s))"@
}

/// Summarize a scan of some files.
pub fn summary(file_count: usize, matches: &[ScanMatch]) -> (r: String)
    ensures
        r@ == summary_text(
            file_count as int,
            matches@.len() as int,
            error_count(engine::match_views(matches@)) as int,
        ),
{
    let mut out = "Scanned ".to_owned();
    push_decimal(&mut out, file_count);
    out.push_str(" file(s) \u{2014} ");
    push_decimal(&mut out, matches.len());
    out.push_str(" match(es) (");
    push_decimal(&mut out, count_errors(matches));
    out.push_str(" error(s))");
    out
}

} // verus!
