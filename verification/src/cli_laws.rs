//! Laws of the selection of files, of what is scanned of a file, and of the outcome of a scan.

use crate::cli;
use crate::engine_spec;
use crate::engine_spec::{MatchView, SourceView};
use crate::lex_spec;
use crate::report_laws;
use crate::rules::{Rule, Severity};
use crate::scope_spec;
use crate::text;
use vstd::prelude::*;

verus! {

// ---------------------------------------------------------------------------
// Patterns
// ---------------------------------------------------------------------------

/// The name can be cut at `i` so that the first part matches one pattern and the rest the other.
pub open spec fn splits_at(a: Seq<char>, b: Seq<char>, name: Seq<char>, i: int) -> bool {
    0 <= i <= name.len() && cli::glob(a, name.take(i)) && cli::glob(b, name.skip(i))
}

/// **Law.** The empty pattern matches the empty name, a star every name without a separator, and any other
/// character itself.
pub proof fn law_glob_char(c: char, name: Seq<char>)
    ensures
        cli::glob(seq![], name) == (name.len() == 0),
        cli::glob(seq!['*'], name) == !name.contains('/'),
        c != '*' ==> cli::glob(seq![c], name) == (name == seq![c]),
{
    reveal_with_fuel(cli::glob, 2);
    let none = Seq::<char>::empty();
    assert(seq!['*'].drop_last() =~= none);
    assert(seq![c].drop_last() =~= none);
    assert(name.skip(0) =~= name);
    assert(name.take(0) =~= none);
    assert(cli::glob(none, name.take(0)));
    if cli::glob(seq!['*'], name) {
        let k = choose|k: int|
            0 <= k <= name.len() && !name.skip(k).contains('/') && cli::glob(
                none,
                #[trigger] name.take(k),
            );
        assert(k == 0);
    }
    if c != '*' && cli::glob(seq![c], name) {
        assert(name =~= seq![c]);
    }
}

/// **Law.** A pattern made of two parts matches exactly the names that can be cut in two, such that each
/// part matches its piece.
pub proof fn law_glob_concat(a: Seq<char>, b: Seq<char>, name: Seq<char>)
    ensures
        cli::glob(a + b, name) == exists|i: int| #[trigger] splits_at(a, b, name, i),
    decreases b.len(),
{
    let all = a + b;
    let n = name.len() as int;
    if b.len() == 0 {
        assert(all =~= a);
        assert(name.take(n) =~= name);
        if cli::glob(a, name) {
            assert(splits_at(a, b, name, n));
        }
        if exists|i: int| #[trigger] splits_at(a, b, name, i) {
            let i = choose|i: int| #[trigger] splits_at(a, b, name, i);
            assert(i == n);
        }
    } else {
        assert(all.last() == b.last());
        assert(all.drop_last() =~= a + b.drop_last());
        if cli::glob(all, name) {
            lemma_glob_splits(a, b, name);
        }
        if exists|i: int| #[trigger] splits_at(a, b, name, i) {
            lemma_splits_glob(a, b, name);
        }
    }
}

proof fn lemma_no_separator(s: Seq<char>, k: int, i: int)
    requires
        0 <= k <= i <= s.len(),
        !s.skip(k).contains('/'),
    ensures
        !s.take(i).skip(k).contains('/'),
        !s.skip(i).contains('/'),
{
    let part = s.take(i).skip(k);
    if part.contains('/') {
        let j = choose|j: int| 0 <= j < part.len() && part[j] == '/';
        assert(s.skip(k)[j] == '/');
    }
    if s.skip(i).contains('/') {
        let j = choose|j: int| 0 <= j < s.skip(i).len() && s.skip(i)[j] == '/';
        assert(s.skip(k)[j + i - k] == '/');
    }
}

proof fn lemma_glob_splits(a: Seq<char>, b: Seq<char>, name: Seq<char>)
    requires
        b.len() > 0,
        cli::glob(a + b, name),
    ensures
        exists|i: int| #[trigger] splits_at(a, b, name, i),
    decreases b.len(), 0int,
{
    let all = a + b;
    let rest = b.drop_last();
    assert(all.last() == b.last());
    assert(all.drop_last() =~= a + rest);
    if b.last() == '*' {
        let k = choose|k: int|
            0 <= k <= name.len() && !name.skip(k).contains('/') && cli::glob(
                a + rest,
                #[trigger] name.take(k),
            );
        let head = name.take(k);
        law_glob_concat(a, rest, head);
        let i = choose|i: int| #[trigger] splits_at(a, rest, head, i);
        let tail = name.skip(i);
        assert(head.take(i) =~= name.take(i));
        assert(tail.take(k - i) =~= head.skip(i));
        assert(tail.skip(k - i) =~= name.skip(k));
        assert(cli::glob(rest, tail.take(k - i)));
        assert(splits_at(a, b, name, i));
    } else {
        let head = name.drop_last();
        law_glob_concat(a, rest, head);
        let i = choose|i: int| #[trigger] splits_at(a, rest, head, i);
        assert(head.take(i) =~= name.take(i));
        assert(name.skip(i).drop_last() =~= head.skip(i));
        assert(name.skip(i).last() == name.last());
        assert(splits_at(a, b, name, i));
    }
}

proof fn lemma_splits_glob(a: Seq<char>, b: Seq<char>, name: Seq<char>)
    requires
        b.len() > 0,
        exists|i: int| #[trigger] splits_at(a, b, name, i),
    ensures
        cli::glob(a + b, name),
    decreases b.len(), 0int,
{
    let all = a + b;
    let rest = b.drop_last();
    assert(all.last() == b.last());
    assert(all.drop_last() =~= a + rest);
    let i = choose|i: int| #[trigger] splits_at(a, b, name, i);
    let tail = name.skip(i);
    if b.last() == '*' {
        let k = choose|k: int|
            0 <= k <= tail.len() && !tail.skip(k).contains('/') && cli::glob(
                rest,
                #[trigger] tail.take(k),
            );
        let head = name.take(i + k);
        assert(head.take(i) =~= name.take(i));
        assert(head.skip(i) =~= tail.take(k));
        assert(name.skip(i + k) =~= tail.skip(k));
        assert(splits_at(a, rest, head, i));
        law_glob_concat(a, rest, head);
        assert(cli::glob(a + rest, name.take(i + k)));
    } else {
        let head = name.drop_last();
        assert(tail.last() == name.last());
        assert(head.take(i) =~= name.take(i));
        assert(head.skip(i) =~= tail.drop_last());
        assert(splits_at(a, rest, head, i));
        law_glob_concat(a, rest, head);
    }
}

// ---------------------------------------------------------------------------
// Extensions
// ---------------------------------------------------------------------------

/// **Law.** The entries of a list of extensions stand between its commas; the white space around each is
/// left out.
pub proof fn law_extension_list(parts: Seq<Seq<char>>)
    requires
        parts.len() > 0,
        forall|i: int| #![trigger parts[i]] 0 <= i < parts.len() ==> !parts[i].contains(','),
    ensures
        cli::extension_list(text::joined(parts, seq![','])).len() == parts.len(),
        forall|i: int|
            0 <= i < parts.len() ==> #[trigger] cli::extension_list(
                text::joined(parts, seq![',']),
            )[i] == text::trimmed(parts[i]),
{
    reveal_strlit(",");
    assert(","@ =~= seq![',']);
    text::law_pieces_of_joined(parts, ","@);
}

// ---------------------------------------------------------------------------
// One file
// ---------------------------------------------------------------------------

/// **Law.** A byte order mark at the start of a text is left out, and nothing else is.
pub proof fn law_without_bom(s: Seq<char>)
    ensures
        cli::without_bom(seq!['\u{feff}'] + s) == s,
        s.len() == 0 || s[0] != '\u{feff}' ==> cli::without_bom(s) == s,
{
    assert((seq!['\u{feff}'] + s).skip(1) =~= s);
}

/// **Law.** A byte order mark changes nothing in what is reported of a file.
pub proof fn law_bom_ignored(
    s: Seq<char>,
    path: Seq<char>,
    ext: Seq<char>,
    rules: Seq<Rule>,
)
    requires
        s.len() == 0 || s[0] != '\u{feff}',
    ensures
        cli::file_matches(seq!['\u{feff}'] + s, path, ext, rules) == cli::file_matches(
            s,
            path,
            ext,
            rules,
        ),
        cli::is_reportable(seq!['\u{feff}'] + s, ext, rules) == cli::is_reportable(s, ext, rules),
{
    law_without_bom(s);
}

/// **Law.** A file without a byte order mark is scanned as it is: with the comments and strings of its
/// language, which is Python for the extensions `py`, `pyw` and `pyi`, and with the scope tree that the
/// profile of its extension gives.
pub proof fn law_file_matches(
    s: Seq<char>,
    path: Seq<char>,
    ext: Seq<char>,
    rules: Seq<Rule>,
)
    requires
        s.len() == 0 || s[0] != '\u{feff}',
    ensures
        ({
            let bytes = vstd::utf8::encode_utf8(s);
            let python = ext == "py"@ || ext == "pyw"@ || ext == "pyi"@;
            let lex = lex_spec::lex(bytes, python);
            cli::file_matches(s, path, ext, rules) == engine_spec::scan_matches(
                (SourceView { bytes, comments: lex.comments, strings: lex.strings }),
                path,
                scope_spec::scope_tree(
                    scope_spec::ext_profile(ext),
                    lex.tokens,
                    bytes.len() as int,
                ),
                rules,
            )
        }),
{
    law_without_bom(s);
}

// ---------------------------------------------------------------------------
// Outcome
// ---------------------------------------------------------------------------

/// **Law.** The errors of a scan are the matches of severity error, and no others.
pub proof fn law_error_count(matches: Seq<MatchView>)
    ensures
        cli::error_count(matches) == matches.filter(
            |m: MatchView| m.severity == Severity::Error,
        ).len(),
    decreases matches.len(),
{
    reveal(Seq::filter);
    if matches.len() > 0 {
        law_error_count(matches.drop_last());
    }
}

/// **Law.** The line that ends a scan tells the number of files, of matches and of errors, in this order.
pub proof fn law_summary(files: int, matches: int, errors: int)
    ensures
        ("Scanned "@ + text::decimal(files) + " file(s) \u{2014} "@).is_prefix_of(
            cli::summary_text(files, matches, errors),
        ),
        report_laws::holds(
            cli::summary_text(files, matches, errors),
            " file(s) \u{2014} "@ + text::decimal(matches) + " match(es) ("@,
        ),
        report_laws::holds(
            cli::summary_text(files, matches, errors),
            " match(es) ("@ + text::decimal(errors) + " error(s))"@,
        ),
{
    let t = cli::summary_text(files, matches, errors);
    let a = "Scanned "@ + text::decimal(files);
    let b = a + " file(s) \u{2014} "@;
    let c = b + text::decimal(matches);
    assert(b.is_prefix_of(t));
    let x = " file(s) \u{2014} "@ + text::decimal(matches) + " match(es) ("@;
    let y = " match(es) ("@ + text::decimal(errors) + " error(s))"@;
    assert(t.skip(a.len() as int) =~= x + (text::decimal(errors) + " error(s))"@));
    assert(x.is_prefix_of(t.skip(a.len() as int)));
    assert(t.skip(c.len() as int) =~= y);
    assert(y.is_prefix_of(t.skip(c.len() as int)));
}

} // verus!
