//! Laws of header classification, stated on the tokens of a header.

use crate::lex_spec::{KindView, TokenView};
use crate::scope::ScopeKind;
use crate::scope_spec;
use crate::scope_spec::ProfileView;
use vstd::prelude::*;

verus! {

// ---------------------------------------------------------------------------
// Words of a header
// ---------------------------------------------------------------------------

/// The token is the word `w`.
pub open spec fn is_the_word(t: TokenView, w: Seq<char>) -> bool {
    t.kind == KindView::Word(w)
}

/// The word introduces a named scope: it is `enum`, or a scope keyword of the profile.
pub open spec fn introduces(p: ProfileView, w: Seq<char>) -> bool {
    w == "enum"@ || exists|j: int|
        0 <= j < p.scope_keywords.len() && (#[trigger] p.scope_keywords[j]).0 == w
}

/// The token is a word that introduces a named scope.
pub open spec fn introduces_scope(p: ProfileView, t: TokenView) -> bool {
    match t.kind {
        KindView::Word(w) => introduces(p, w),
        _ => false,
    }
}

/// The token is a word of the list.
pub open spec fn is_listed(list: Seq<Seq<char>>, t: TokenView) -> bool {
    match t.kind {
        KindView::Word(w) => exists|j: int| 0 <= j < list.len() && #[trigger] list[j] == w,
        _ => false,
    }
}

/// None of the tokens from `a` to `b` is a word.
pub open spec fn no_words(tokens: Seq<TokenView>, a: int, b: int) -> bool {
    forall|j: int| a <= j < b ==> !((#[trigger] tokens[j]).kind is Word)
}

/// The word `w` at `m` is the next one behind `k`.
pub open spec fn next_word(tokens: Seq<TokenView>, k: int, m: int, w: Seq<char>) -> bool {
    k < m < tokens.len() && is_the_word(tokens[m], w) && no_words(tokens, k + 1, m)
}

/// The word `w` at `m` is the last one before `k`.
pub open spec fn last_word_before(tokens: Seq<TokenView>, k: int, m: int, w: Seq<char>) -> bool {
    0 <= m < k && is_the_word(tokens[m], w) && no_words(tokens, m + 1, k)
}

proof fn lemma_words_concat(a: Seq<TokenView>, b: Seq<TokenView>)
    ensures
        scope_spec::words_of(a + b) == scope_spec::words_of(a) + scope_spec::words_of(b),
    decreases b.len(),
{
    if b.len() == 0 {
        assert(a + b =~= a);
        assert(scope_spec::words_of(a) + scope_spec::words_of(b) =~= scope_spec::words_of(a));
    } else {
        lemma_words_concat(a, b.drop_last());
        assert((a + b).drop_last() =~= a + b.drop_last());
        assert((a + b).last() == b.last());
        assert(scope_spec::words_of(a + b) =~= scope_spec::words_of(a) + scope_spec::words_of(b));
    }
}

proof fn lemma_words_none(t: Seq<TokenView>)
    requires
        no_words(t, 0, t.len() as int),
    ensures
        scope_spec::words_of(t) == Seq::<Seq<char>>::empty(),
    decreases t.len(),
{
    if t.len() > 0 {
        assert(t[t.len() - 1] == t.last());
        assert(!(t[t.len() - 1].kind is Word));
        let init = t.drop_last();
        assert forall|j: int| 0 <= j < init.len() implies !((#[trigger] init[j]).kind is Word) by {
            assert(init[j] == t[j]);
        }
        lemma_words_none(init);
    }
}

/// A word stands in the list of words behind those of the tokens before it.
proof fn lemma_word_place(t: Seq<TokenView>, k: int, w: Seq<char>)
    requires
        0 <= k < t.len(),
        is_the_word(t[k], w),
    ensures
        scope_spec::words_of(t.take(k)).len() < scope_spec::words_of(t).len(),
        scope_spec::words_of(t)[scope_spec::words_of(t.take(k)).len() as int] == w,
        scope_spec::words_of(t) == scope_spec::words_of(t.take(k)) + seq![w]
            + scope_spec::words_of(t.skip(k + 1)),
{
    reveal_with_fuel(scope_spec::words_of, 2);
    let one = seq![t[k]];
    assert(t =~= t.take(k) + one + t.skip(k + 1));
    lemma_words_concat(t.take(k) + one, t.skip(k + 1));
    lemma_words_concat(t.take(k), one);
    assert(one.drop_last() =~= seq![]);
    assert(scope_spec::words_of(one) =~= seq![w]);
}

/// Every word of the list is that of a token.
proof fn lemma_word_token(t: Seq<TokenView>, i: int) -> (k: int)
    requires
        0 <= i < scope_spec::words_of(t).len(),
    ensures
        0 <= k < t.len(),
        is_the_word(t[k], scope_spec::words_of(t)[i]),
    decreases t.len(),
{
    let init = t.drop_last();
    let rest = scope_spec::words_of(init);
    if i < rest.len() {
        assert(scope_spec::words_of(t)[i] == rest[i]);
        lemma_word_token(init, i)
    } else {
        t.len() - 1
    }
}

/// What the word list holds next to the word at `k`.
proof fn lemma_neighbours(t: Seq<TokenView>, k: int, w: Seq<char>)
    requires
        0 <= k < t.len(),
        is_the_word(t[k], w),
    ensures
        ({
            let words = scope_spec::words_of(t);
            let n = scope_spec::words_of(t.take(k)).len() as int;
            &&& forall|m: int, v: Seq<char>| #[trigger]
                next_word(t, k, m, v) ==> scope_spec::word_at(words, n + 1) == v && n + 1
                    < words.len() && scope_spec::words_of(t.take(m)).len() == n + 1
            &&& no_words(t, k + 1, t.len() as int) ==> words.len() == n + 1
            &&& forall|m: int, v: Seq<char>| #[trigger]
                last_word_before(t, k, m, v) ==> n >= 1 && words[n - 1] == v
            &&& no_words(t, 0, k) ==> n == 0
        }),
{
    let words = scope_spec::words_of(t);
    let n = scope_spec::words_of(t.take(k)).len() as int;
    lemma_word_place(t, k, w);
    assert forall|m: int, v: Seq<char>| #[trigger] next_word(t, k, m, v) implies n + 1
        < words.len() && scope_spec::word_at(words, n + 1) == v && scope_spec::words_of(
        t.take(m),
    ).len() == n + 1 by {
        lemma_word_place(t, m, v);
        let head = t.take(m);
        assert(head.take(k) =~= t.take(k));
        lemma_word_place(head, k, w);
        let between = head.skip(k + 1);
        assert forall|j: int| 0 <= j < between.len() implies !((
        #[trigger] between[j]).kind is Word) by {
            assert(between[j] == t[k + 1 + j]);
        }
        lemma_words_none(between);
    }
    if no_words(t, k + 1, t.len() as int) {
        let rest = t.skip(k + 1);
        assert forall|j: int| 0 <= j < rest.len() implies !((#[trigger] rest[j]).kind is Word) by {
            assert(rest[j] == t[k + 1 + j]);
        }
        lemma_words_none(rest);
    }
    assert forall|m: int, v: Seq<char>| #[trigger] last_word_before(t, k, m, v) implies n >= 1
        && words[n - 1] == v by {
        let head = t.take(k);
        assert(head[m] == t[m]);
        lemma_word_place(head, m, v);
        let between = head.skip(m + 1);
        assert forall|j: int| 0 <= j < between.len() implies !((
        #[trigger] between[j]).kind is Word) by {
            assert(between[j] == t[m + 1 + j]);
        }
        lemma_words_none(between);
        assert(scope_spec::words_of(head)[n - 1] == v);
        assert(words[n - 1] == scope_spec::words_of(head)[n - 1]);
    }
    if no_words(t, 0, k) {
        let head = t.take(k);
        assert forall|j: int| 0 <= j < head.len() implies !((#[trigger] head[j]).kind is Word) by {
            assert(head[j] == t[j]);
        }
        lemma_words_none(head);
    }
}

// ---------------------------------------------------------------------------
// Scope keywords
// ---------------------------------------------------------------------------

proof fn lemma_keyword_index(table: Seq<(Seq<char>, ScopeKind)>, w: Seq<char>, i: int)
    requires
        0 <= i <= table.len(),
    ensures
        i <= scope_spec::keyword_index(table, w, i) <= table.len(),
        scope_spec::keyword_index(table, w, i) < table.len() ==> table[scope_spec::keyword_index(
            table,
            w,
            i,
        )].0 == w,
        forall|j: int|
            i <= j < scope_spec::keyword_index(table, w, i) ==> (#[trigger] table[j]).0 != w,
    decreases table.len() - i,
{
    if i < table.len() && table[i].0 != w {
        lemma_keyword_index(table, w, i + 1);
    }
}

/// The first entry of the table for a word that it has.
pub proof fn lemma_first_entry(table: Seq<(Seq<char>, ScopeKind)>, w: Seq<char>) -> (j: int)
    requires
        exists|j: int| 0 <= j < table.len() && (#[trigger] table[j]).0 == w,
    ensures
        0 <= j < table.len(),
        table[j].0 == w,
        forall|i: int| 0 <= i < j ==> (#[trigger] table[i]).0 != w,
{
    lemma_keyword_index(table, w, 0);
    let k = choose|k: int| 0 <= k < table.len() && (#[trigger] table[k]).0 == w;
    let j = scope_spec::keyword_index(table, w, 0);
    if k < j {
        assert(table[k].0 != w);
    }
    j
}

proof fn lemma_scope_word_first(p: ProfileView, words: Seq<Seq<char>>, i: int, n: int)
    requires
        0 <= i <= n <= words.len(),
        forall|j: int| i <= j < n ==> !introduces(p, #[trigger] words[j]),
        n < words.len() ==> introduces(p, words[n]),
    ensures
        scope_spec::scope_word(p, words, i) == n,
    decreases n - i,
{
    if i < words.len() {
        lemma_keyword_index(p.scope_keywords, words[i], 0);
        let j = scope_spec::keyword_index(p.scope_keywords, words[i], 0);
        if j < p.scope_keywords.len() {
            assert(p.scope_keywords[j].0 == words[i]);
        }
        if i < n {
            lemma_scope_word_first(p, words, i + 1, n);
        }
    }
}

/// The word at `k` is the first one that introduces a named scope.
pub open spec fn first_introducing(
    p: ProfileView,
    header: Seq<TokenView>,
    k: int,
    w: Seq<char>,
) -> bool {
    &&& 0 <= k < header.len()
    &&& is_the_word(header[k], w)
    &&& introduces(p, w)
    &&& forall|j: int| 0 <= j < k ==> !introduces_scope(p, #[trigger] header[j])
}

proof fn lemma_first_introducing(p: ProfileView, header: Seq<TokenView>, k: int, w: Seq<char>)
    requires
        first_introducing(p, header, k, w),
    ensures
        ({
            let words = scope_spec::words_of(header);
            let n = scope_spec::words_of(header.take(k)).len() as int;
            &&& scope_spec::scope_word(p, words, 0) == n
            &&& n < words.len()
            &&& words[n] == w
        }),
{
    let words = scope_spec::words_of(header);
    let head = header.take(k);
    let n = scope_spec::words_of(head).len() as int;
    lemma_word_place(header, k, w);
    assert forall|j: int| 0 <= j < n implies !introduces(p, #[trigger] words[j]) by {
        let i = lemma_word_token(head, j);
        assert(head[i] == header[i]);
        assert(words[j] == scope_spec::words_of(head)[j]);
        assert(!introduces_scope(p, header[i]));
    }
    lemma_scope_word_first(p, words, 0, n);
}

/// **Law.** The first word of a header that is `enum` or a scope keyword of the language gives the
/// scope its kind, whatever else the header holds: function keywords, control flow, parentheses.
pub proof fn law_scope_keyword_gives_kind(
    p: ProfileView,
    header: Seq<TokenView>,
    k: int,
    w: Seq<char>,
)
    requires
        first_introducing(p, header, k, w),
    ensures
        w == "enum"@ ==> scope_spec::classify(p, header).0 == ScopeKind::Enum,
        w != "enum"@ ==> forall|j: int|
            0 <= j < p.scope_keywords.len() && (#[trigger] p.scope_keywords[j]).0 == w && (
            forall|i: int| 0 <= i < j ==> (#[trigger] p.scope_keywords[i]).0 != w)
                ==> scope_spec::classify(p, header).0 == p.scope_keywords[j].1,
{
    lemma_first_introducing(p, header, k, w);
    lemma_keyword_index(p.scope_keywords, w, 0);
    if w != "enum"@ {
        assert forall|j: int|
            0 <= j < p.scope_keywords.len() && (#[trigger] p.scope_keywords[j]).0 == w && (
            forall|i: int| 0 <= i < j ==> (#[trigger] p.scope_keywords[i]).0 != w) implies
            scope_spec::classify(p, header).0 == p.scope_keywords[j].1 by {
            let q = scope_spec::keyword_index(p.scope_keywords, w, 0);
            if q < j {
                assert(p.scope_keywords[q].0 != w);
            } else if j < q {
                assert(p.scope_keywords[j].0 != w);
            }
        }
    }
}

/// **Law.** A scope is named by the word behind its keyword; where none follows, by the word in front
/// of it; and where there is none either, by nothing.
pub proof fn law_scope_name(p: ProfileView, header: Seq<TokenView>, k: int, w: Seq<char>)
    requires
        first_introducing(p, header, k, w),
        w != "enum"@,
    ensures
        forall|m: int, v: Seq<char>| #[trigger]
            next_word(header, k, m, v) && v.len() > 0 ==> scope_spec::classify(p, header).1 == v,
        no_words(header, k + 1, header.len() as int) ==> forall|m: int, v: Seq<char>| #[trigger]
            last_word_before(header, k, m, v) ==> scope_spec::classify(p, header).1 == v,
        no_words(header, k + 1, header.len() as int) && no_words(header, 0, k)
            ==> scope_spec::classify(p, header).1.len() == 0,
{
    lemma_first_introducing(p, header, k, w);
    lemma_neighbours(header, k, w);
}

/// **Law.** An enum is named by the word behind `enum`, or, where that is `class` or `struct`, by the
/// word behind that; where the word is missing, it has no name.
pub proof fn law_enum_name(p: ProfileView, header: Seq<TokenView>, k: int)
    requires
        first_introducing(p, header, k, "enum"@),
    ensures
        forall|m: int, v: Seq<char>| #[trigger]
            next_word(header, k, m, v) && v != "class"@ && v != "struct"@ ==> scope_spec::classify(
                p,
                header,
            ).1 == v,
        forall|m: int, v: Seq<char>, m2: int, v2: Seq<char>|
            #![trigger next_word(header, k, m, v), next_word(header, m, m2, v2)]
            next_word(header, k, m, v) && (v == "class"@ || v == "struct"@) && next_word(
                header,
                m,
                m2,
                v2,
            ) ==> scope_spec::classify(p, header).1 == v2,
        forall|m: int, v: Seq<char>| #[trigger]
            next_word(header, k, m, v) && (v == "class"@ || v == "struct"@) && no_words(
                header,
                m + 1,
                header.len() as int,
            ) ==> scope_spec::classify(p, header).1.len() == 0,
        no_words(header, k + 1, header.len() as int) ==> scope_spec::classify(p, header).1.len()
            == 0,
{
    lemma_first_introducing(p, header, k, "enum"@);
    lemma_neighbours(header, k, "enum"@);
    reveal_strlit("class");
    reveal_strlit("struct");
    assert("class"@.len() == 5 && "struct"@.len() == 6);
    assert forall|m: int, v: Seq<char>, m2: int, v2: Seq<char>|
        #![trigger next_word(header, k, m, v), next_word(header, m, m2, v2)]
        next_word(header, k, m, v) && (v == "class"@ || v == "struct"@) && next_word(
            header,
            m,
            m2,
            v2,
        ) implies scope_spec::classify(p, header).1 == v2 by {
        lemma_neighbours(header, m, v);
    }
    assert forall|m: int, v: Seq<char>| #[trigger]
        next_word(header, k, m, v) && (v == "class"@ || v == "struct"@) && no_words(
            header,
            m + 1,
            header.len() as int,
        ) implies scope_spec::classify(p, header).1.len() == 0 by {
        lemma_neighbours(header, m, v);
    }
}

// ---------------------------------------------------------------------------
// Function keywords
// ---------------------------------------------------------------------------

/// No word of the header introduces a named scope.
pub open spec fn introduces_none(p: ProfileView, header: Seq<TokenView>) -> bool {
    forall|j: int| 0 <= j < header.len() ==> !introduces_scope(p, #[trigger] header[j])
}

/// The word at `k` is the first one of the list.
pub open spec fn first_listed(list: Seq<Seq<char>>, header: Seq<TokenView>, k: int) -> bool {
    0 <= k < header.len() && is_listed(list, header[k]) && forall|j: int|
        0 <= j < k ==> !is_listed(list, #[trigger] header[j])
}

/// No word of the header is in the list.
pub open spec fn none_listed(list: Seq<Seq<char>>, header: Seq<TokenView>) -> bool {
    forall|j: int| 0 <= j < header.len() ==> !is_listed(list, #[trigger] header[j])
}

/// Number of parentheses that are open at `m`, of those from `lo` on.
pub open spec fn parens_open(tokens: Seq<TokenView>, lo: int, m: int) -> int
    decreases m - lo,
{
    if m <= lo {
        0
    } else {
        let d = parens_open(tokens, lo, m - 1);
        if tokens[m - 1].kind is OpenParen {
            d + 1
        } else if tokens[m - 1].kind is CloseParen && d > 0 {
            d - 1
        } else {
            d
        }
    }
}

proof fn lemma_introduces_none(p: ProfileView, header: Seq<TokenView>)
    requires
        introduces_none(p, header),
    ensures
        scope_spec::scope_word(p, scope_spec::words_of(header), 0) == scope_spec::words_of(
            header,
        ).len(),
{
    let words = scope_spec::words_of(header);
    assert forall|j: int| 0 <= j < words.len() implies !introduces(p, #[trigger] words[j]) by {
        let i = lemma_word_token(header, j);
        assert(!introduces_scope(p, header[i]));
    }
    lemma_scope_word_first(p, words, 0, words.len() as int);
}

proof fn lemma_listed_first(header: Seq<TokenView>, list: Seq<Seq<char>>, i: int, n: int)
    requires
        0 <= i <= n <= header.len(),
        forall|j: int| i <= j < n ==> !is_listed(list, #[trigger] header[j]),
        n < header.len() ==> is_listed(list, header[n]),
    ensures
        scope_spec::word_in_from(header, list, i) == n,
    decreases n - i,
{
    if i < header.len() {
        assert(scope_spec::is_word_in(header[i], list) == is_listed(list, header[i])) by {
            if header[i].kind is Word {
                let w = header[i].kind->Word_0;
                if list.contains(w) {
                    let j = choose|j: int| 0 <= j < list.len() && list[j] == w;
                    assert(list[j] == w);
                }
            }
        }
        if i < n {
            lemma_listed_first(header, list, i + 1, n);
        }
    }
}

/// The word at `m` is the first one from `lo` on outside parentheses.
pub open spec fn first_outside_parens(
    tokens: Seq<TokenView>,
    lo: int,
    m: int,
    v: Seq<char>,
) -> bool {
    &&& lo <= m < tokens.len()
    &&& is_the_word(tokens[m], v)
    &&& parens_open(tokens, lo, m) == 0
    &&& forall|j: int|
        lo <= j < m ==> (#[trigger] tokens[j]).kind is Word ==> parens_open(tokens, lo, j) > 0
}

/// A group ends behind the parenthesis that closes it.
proof fn lemma_group_depth(tokens: Seq<TokenView>, lo: int, i: int, depth: int)
    requires
        0 <= lo <= i <= tokens.len(),
        depth >= 0,
        parens_open(tokens, lo, i) == depth,
    ensures
        ({
            let e = scope_spec::group_end(tokens, i, depth);
            &&& i <= e <= tokens.len()
            &&& forall|j: int| i <= j < e ==> #[trigger] parens_open(tokens, lo, j) > 0
            &&& e < tokens.len() ==> parens_open(tokens, lo, e) == 0
        }),
    decreases tokens.len() - i,
{
    if i < tokens.len() && depth > 0 {
        let d = parens_open(tokens, lo, i + 1);
        lemma_group_depth(tokens, lo, i + 1, d);
    }
}

proof fn lemma_fn_name(tokens: Seq<TokenView>, lo: int, i: int)
    requires
        0 <= lo <= i <= tokens.len(),
        i < tokens.len() ==> parens_open(tokens, lo, i) == 0,
        forall|j: int|
            lo <= j < i ==> (#[trigger] tokens[j]).kind is Word ==> parens_open(tokens, lo, j) > 0,
    ensures
        forall|m: int, v: Seq<char>| #[trigger]
            first_outside_parens(tokens, lo, m, v) ==> scope_spec::fn_name(tokens, i) == v,
        (forall|j: int|
            lo <= j < tokens.len() ==> (#[trigger] tokens[j]).kind is Word ==> parens_open(
                tokens,
                lo,
                j,
            ) > 0) ==> scope_spec::fn_name(tokens, i).len() == 0,
    decreases tokens.len() - i,
{
    if i < tokens.len() {
        match tokens[i].kind {
            KindView::Word(w) => {
                assert forall|m: int, v: Seq<char>| #[trigger]
                    first_outside_parens(tokens, lo, m, v) implies v == w by {
                    if m < i {
                        assert(tokens[m].kind is Word);
                    } else if i < m {
                        assert(tokens[i].kind is Word);
                    }
                }
            },
            KindView::OpenParen => {
                let e = scope_spec::group_end(tokens, i + 1, 1);
                assert(parens_open(tokens, lo, i + 1) == 1);
                lemma_group_depth(tokens, lo, i + 1, 1);
                assert forall|j: int| lo <= j < e && (#[trigger] tokens[j]).kind is Word implies
                    parens_open(tokens, lo, j) > 0 by {
                    if j > i {
                        assert(parens_open(tokens, lo, j) > 0);
                    }
                }
                lemma_fn_name(tokens, lo, e);
            },
            _ => {
                assert(parens_open(tokens, lo, i + 1) == 0);
                lemma_fn_name(tokens, lo, i + 1);
            },
        }
    }
}

/// **Law.** A header without a scope keyword but with a function keyword of the language opens a
/// function, whatever control flow it also holds.  Its name is the first word behind the keyword that
/// does not stand in parentheses, so that a receiver is passed over.
pub proof fn law_function_keyword(p: ProfileView, header: Seq<TokenView>, k: int)
    requires
        introduces_none(p, header),
        first_listed(p.fn_keywords, header, k),
    ensures
        scope_spec::classify(p, header).0 == ScopeKind::Function,
        forall|m: int, v: Seq<char>| #[trigger]
            first_outside_parens(header, k + 1, m, v) ==> scope_spec::classify(p, header).1 == v,
        (forall|j: int|
            k < j < header.len() ==> (#[trigger] header[j]).kind is Word ==> parens_open(
                header,
                k + 1,
                j,
            ) > 0) ==> scope_spec::classify(p, header).1.len() == 0,
{
    lemma_introduces_none(p, header);
    lemma_listed_first(header, p.fn_keywords, 0, k);
    lemma_fn_name(header, k + 1, k + 1);
}

// ---------------------------------------------------------------------------
// Control flow and C functions
// ---------------------------------------------------------------------------

/// **Law.** Only a header with neither a scope keyword nor a function keyword is an anonymous block on
/// account of control flow; then one control-flow word anywhere in it is enough.
pub proof fn law_control_flow_is_block(p: ProfileView, header: Seq<TokenView>, k: int)
    requires
        introduces_none(p, header),
        none_listed(p.fn_keywords, header),
        0 <= k < header.len(),
        is_listed(p.control_flow, header[k]),
    ensures
        scope_spec::classify(p, header).0 == ScopeKind::Block,
        scope_spec::classify(p, header).1.len() == 0,
{
    lemma_introduces_none(p, header);
    lemma_listed_first(header, p.fn_keywords, 0, header.len() as int);
    lemma_some_listed(header, p.control_flow, 0, k);
}

proof fn lemma_some_listed(header: Seq<TokenView>, list: Seq<Seq<char>>, i: int, k: int)
    requires
        0 <= i <= k < header.len(),
        is_listed(list, header[k]),
    ensures
        scope_spec::word_in_from(header, list, i) < header.len(),
    decreases k - i,
{
    if !scope_spec::is_word_in(header[i], list) {
        if i < k {
            lemma_some_listed(header, list, i + 1, k);
        } else {
            let w = header[i].kind->Word_0;
            let j = choose|j: int| 0 <= j < list.len() && #[trigger] list[j] == w;
            assert(list.contains(w));
        }
    }
}

/// The first `(` of the header stands at `k`.
pub open spec fn first_paren(header: Seq<TokenView>, k: int) -> bool {
    0 <= k < header.len() && header[k].kind is OpenParen && forall|j: int|
        0 <= j < k ==> !((#[trigger] header[j]).kind is OpenParen)
}

proof fn lemma_paren_first(header: Seq<TokenView>, i: int, n: int)
    requires
        0 <= i <= n <= header.len(),
        forall|j: int| i <= j < n ==> !((#[trigger] header[j]).kind is OpenParen),
        n < header.len() ==> header[n].kind is OpenParen,
    ensures
        scope_spec::paren_from(header, i) == n,
    decreases n - i,
{
    if i < n {
        lemma_paren_first(header, i + 1, n);
    }
}

/// **Law.** A header without any keyword opens a function exactly when a word stands before its first
/// `(`: the last such word is the name.  Otherwise it opens an anonymous block.
pub proof fn law_word_before_paren(p: ProfileView, header: Seq<TokenView>)
    requires
        introduces_none(p, header),
        none_listed(p.fn_keywords, header),
        none_listed(p.control_flow, header),
    ensures
        forall|k: int, m: int, w: Seq<char>|
            #![trigger first_paren(header, k), last_word_before(header, k, m, w)]
            first_paren(header, k) && last_word_before(header, k, m, w) && w.len() > 0
                ==> scope_spec::classify(p, header) == (ScopeKind::Function, w),
        forall|k: int| #[trigger]
            first_paren(header, k) && no_words(header, 0, k) ==> scope_spec::classify(p, header).0
                == ScopeKind::Block && scope_spec::classify(p, header).1.len() == 0,
        (forall|j: int| 0 <= j < header.len() ==> !((#[trigger] header[j]).kind is OpenParen))
            ==> scope_spec::classify(p, header).0 == ScopeKind::Block && scope_spec::classify(
            p,
            header,
        ).1.len() == 0,
{
    lemma_introduces_none(p, header);
    lemma_listed_first(header, p.fn_keywords, 0, header.len() as int);
    lemma_listed_first(header, p.control_flow, 0, header.len() as int);
    assert forall|k: int, m: int, w: Seq<char>|
        #![trigger first_paren(header, k), last_word_before(header, k, m, w)]
        first_paren(header, k) && last_word_before(header, k, m, w) && w.len() > 0 implies
        scope_spec::classify(p, header) == (ScopeKind::Function, w) by {
        lemma_paren_first(header, 0, k);
        let head = header.take(k);
        assert(head[m] == header[m]);
        lemma_word_place(head, m, w);
        let rest = head.skip(m + 1);
        assert forall|j: int| 0 <= j < rest.len() implies !((#[trigger] rest[j]).kind is Word) by {
            assert(rest[j] == header[m + 1 + j]);
        }
        lemma_words_none(rest);
        assert(scope_spec::last_word(scope_spec::words_of(head)) == w);
    }
    assert forall|k: int| #[trigger] first_paren(header, k) && no_words(header, 0, k) implies
        scope_spec::classify(p, header).0 == ScopeKind::Block && scope_spec::classify(
        p,
        header,
    ).1.len() == 0 by {
        lemma_paren_first(header, 0, k);
        let head = header.take(k);
        assert forall|j: int| 0 <= j < head.len() implies !((#[trigger] head[j]).kind is Word) by {
            assert(head[j] == header[j]);
        }
        lemma_words_none(head);
    }
    if forall|j: int| 0 <= j < header.len() ==> !((#[trigger] header[j]).kind is OpenParen) {
        lemma_paren_first(header, 0, header.len() as int);
    }
}

} // verus!
