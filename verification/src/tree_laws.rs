//! Laws of the scope tree: which tokens open, name and close each scope, and how the tree is shown.

use crate::lex_spec::{KindView, TokenView};
use crate::scope::ScopeKind;
use crate::scope_spec;
use crate::scope_spec::{FrameView, ProfileView, ScopeView};
use vstd::prelude::*;

verus! {

// ---------------------------------------------------------------------------
// Which tokens make a scope
// ---------------------------------------------------------------------------

/// The header of a brace at `k`: the tokens since the last `{`, `}` or `;`, without comments, strings
/// and directives.
pub open spec fn header_before(tokens: Seq<TokenView>, k: int) -> Seq<TokenView>
    decreases k,
{
    if k <= 0 {
        seq![]
    } else {
        match tokens[k - 1].kind {
            KindView::OpenBrace => seq![],
            KindView::CloseBrace => seq![],
            KindView::Semicolon => seq![],
            KindView::Comment => header_before(tokens, k - 1),
            KindView::StringLiteral => header_before(tokens, k - 1),
            KindView::Preprocessor => header_before(tokens, k - 1),
            _ => header_before(tokens, k - 1).push(tokens[k - 1]),
        }
    }
}

/// How many more braces open than close from `k` to `j`.
pub open spec fn braces_open(tokens: Seq<TokenView>, k: int, j: int) -> int
    decreases j - k,
{
    if j <= k {
        0
    } else if tokens[j - 1].kind is OpenBrace {
        braces_open(tokens, k, j - 1) + 1
    } else if tokens[j - 1].kind is CloseBrace {
        braces_open(tokens, k, j - 1) - 1
    } else {
        braces_open(tokens, k, j - 1)
    }
}

/// The brace at `k` is still open at `n`.
pub open spec fn stays_open(tokens: Seq<TokenView>, k: int, n: int) -> bool {
    forall|j: int| k < j <= n ==> #[trigger] braces_open(tokens, k, j) >= 1
}

/// The brace at `m` closes the one at `k`.
pub open spec fn closes(tokens: Seq<TokenView>, k: int, m: int) -> bool {
    k < m < tokens.len() && tokens[m].kind is CloseBrace && stays_open(tokens, k, m)
        && braces_open(tokens, k, m + 1) == 0
}

/// The brace at `k` opens a scope of this kind, name, start and line.
pub open spec fn opens(
    p: ProfileView,
    tokens: Seq<TokenView>,
    k: int,
    kind: ScopeKind,
    name: Seq<char>,
    start: int,
    line: int,
) -> bool {
    &&& 0 <= k < tokens.len()
    &&& tokens[k].kind is OpenBrace
    &&& tokens[k].start == start
    &&& tokens[k].line == line
    &&& (kind, name) == scope_spec::classify(p, header_before(tokens, k))
}

/// The scope is that of the brace at `k`: it has the kind and name of its header, and ends at the brace
/// that closes it, or, where there is none, with the source.
pub open spec fn is_scope_of(
    p: ProfileView,
    tokens: Seq<TokenView>,
    len: int,
    n: ScopeView,
    k: int,
) -> bool {
    &&& opens(p, tokens, k, n.kind, n.name, n.body_start, n.start_line)
    &&& ends_at_brace(tokens, n, k) || (stays_open(tokens, k, tokens.len() as int) && n.body_end
        == len && n.end_line == 0)
}

/// The scope ends at the brace that closes the one at `k`.
pub open spec fn ends_at_brace(tokens: Seq<TokenView>, n: ScopeView, k: int) -> bool {
    exists|m: int| #[trigger]
        closes(tokens, k, m) && n.body_end == tokens[m].start && n.end_line == tokens[m].line
}

/// The scope is that of one of the braces, and so are the scopes in it.
pub open spec fn is_scope(p: ProfileView, tokens: Seq<TokenView>, len: int, n: ScopeView) -> bool
    decreases n,
{
    &&& exists|k: int| #[trigger] is_scope_of(p, tokens, len, n, k)
    &&& forall|i: int|
        #![trigger n.children[i]]
        0 <= i < n.children.len() ==> is_scope(p, tokens, len, n.children[i])
}

/// All of the scopes are those of braces.
pub open spec fn are_scopes(
    p: ProfileView,
    tokens: Seq<TokenView>,
    len: int,
    nodes: Seq<ScopeView>,
) -> bool {
    forall|i: int| #![trigger nodes[i]] 0 <= i < nodes.len() ==> is_scope(p, tokens, len, nodes[i])
}

/// The frame is that of the brace at `k`, with `depth` braces open since at `n`.
spec fn is_frame_of(
    p: ProfileView,
    tokens: Seq<TokenView>,
    n: int,
    f: FrameView,
    depth: int,
    k: int,
) -> bool {
    &&& opens(p, tokens, k, f.kind, f.name, f.body_start, f.start_line)
    &&& k < n
    &&& stays_open(tokens, k, n)
    &&& braces_open(tokens, k, n) == depth
}

spec fn is_frame(
    p: ProfileView,
    tokens: Seq<TokenView>,
    n: int,
    f: FrameView,
    depth: int,
) -> bool {
    exists|k: int| #[trigger] is_frame_of(p, tokens, n, f, depth, k)
}

spec fn frames_fit(
    p: ProfileView,
    tokens: Seq<TokenView>,
    len: int,
    n: int,
    frames: Seq<FrameView>,
) -> bool {
    &&& forall|i: int|
        #![trigger frames[i]]
        0 <= i < frames.len() ==> are_scopes(p, tokens, len, frames[i].children)
    &&& forall|i: int|
        #![trigger frames[i]]
        1 <= i < frames.len() ==> is_frame(p, tokens, n, frames[i], frames.len() - i)
}

proof fn lemma_header(p: ProfileView, tokens: Seq<TokenView>, n: int)
    requires
        0 <= n <= tokens.len(),
    ensures
        scope_spec::parse_run(p, tokens.take(n)).header == header_before(tokens, n),
    decreases n,
{
    if n > 0 {
        lemma_header(p, tokens, n - 1);
        assert(tokens.take(n).drop_last() =~= tokens.take(n - 1));
        assert(tokens.take(n).last() == tokens[n - 1]);
    }
}

/// A frame stays one over a token that does not close it.
proof fn lemma_frame_kept(
    p: ProfileView,
    tokens: Seq<TokenView>,
    n: int,
    f: FrameView,
    depth: int,
    next: int,
)
    requires
        0 < n <= tokens.len(),
        is_frame(p, tokens, n - 1, f, depth),
        next == depth + braces_open(tokens, n - 1, n),
        next >= 1,
    ensures
        is_frame(p, tokens, n, f, next),
{
    reveal_with_fuel(braces_open, 2);
    let k = choose|k: int| #[trigger] is_frame_of(p, tokens, n - 1, f, depth, k);
    assert(braces_open(tokens, k, n) == next);
    assert(stays_open(tokens, k, n));
    assert(is_frame_of(p, tokens, n, f, next, k));
}

/// Closing the innermost frame at `end` keeps the frames fit.
proof fn lemma_close_top_fits(
    p: ProfileView,
    tokens: Seq<TokenView>,
    len: int,
    frames: Seq<FrameView>,
    end: int,
    line: int,
)
    requires
        frames.len() > 1,
        forall|i: int|
            #![trigger frames[i]]
            0 <= i < frames.len() ==> are_scopes(p, tokens, len, frames[i].children),
        exists|k: int| #[trigger]
            is_scope_of(
                p,
                tokens,
                len,
                scope_spec::closed_node(frames.last(), end, line),
                k,
            ),
    ensures
        ({
            let after = scope_spec::close_top(frames, end, line);
            &&& after.len() == frames.len() - 1
            &&& forall|i: int|
                #![trigger after[i]]
                0 <= i < after.len() ==> are_scopes(p, tokens, len, after[i].children)
            &&& forall|i: int|
                #![trigger after[i]]
                0 <= i < after.len() ==> after[i].kind == frames[i].kind && after[i].name
                    == frames[i].name && after[i].body_start == frames[i].body_start
                    && after[i].start_line == frames[i].start_line
        }),
{
    let top = frames.len() - 1;
    let node = scope_spec::closed_node(frames[top], end, line);
    let after = scope_spec::close_top(frames, end, line);
    assert(node.children == frames[top].children);
    assert(are_scopes(p, tokens, len, frames[top].children));
    assert(is_scope(p, tokens, len, node));
    assert forall|i: int| #![trigger after[i]] 0 <= i < after.len() implies are_scopes(
        p,
        tokens,
        len,
        after[i].children,
    ) by {
        let before = frames[i].children;
        assert(are_scopes(p, tokens, len, before));
        if i < top - 1 {
            assert(after[i] == frames[i]);
        } else {
            let grown = after[i].children;
            assert(grown == before.push(node));
            assert forall|j: int| #![trigger grown[j]] 0 <= j < grown.len() implies is_scope(
                p,
                tokens,
                len,
                grown[j],
            ) by {
                if j < before.len() {
                    assert(grown[j] == before[j]);
                }
            }
        }
    }
}

proof fn lemma_run_fits(p: ProfileView, tokens: Seq<TokenView>, n: int, len: int)
    requires
        0 <= n <= tokens.len(),
    ensures
        frames_fit(p, tokens, len, n, scope_spec::parse_run(p, tokens.take(n)).frames),
        scope_spec::parse_run(p, tokens.take(n)).frames.len() >= 1,
    decreases n,
{
    if n > 0 {
        lemma_run_fits(p, tokens, n - 1, len);
        lemma_header(p, tokens, n - 1);
        reveal_with_fuel(braces_open, 2);
        assert(tokens.take(n).drop_last() =~= tokens.take(n - 1));
        let t = tokens[n - 1];
        assert(tokens.take(n).last() == t);
        let before = scope_spec::parse_run(p, tokens.take(n - 1)).frames;
        let after = scope_spec::parse_run(p, tokens.take(n)).frames;
        if t.kind is OpenBrace {
            assert forall|i: int| #![trigger after[i]] 0 <= i < after.len() implies are_scopes(
                p,
                tokens,
                len,
                after[i].children,
            ) by {
                if i < before.len() {
                    assert(after[i] == before[i]);
                }
            }
            assert forall|i: int| #![trigger after[i]] 1 <= i < after.len() implies is_frame(
                p,
                tokens,
                n,
                after[i],
                after.len() - i,
            ) by {
                if i < before.len() {
                    assert(after[i] == before[i]);
                    lemma_frame_kept(p, tokens, n, after[i], before.len() - i, after.len() - i);
                } else {
                    assert(stays_open(tokens, n - 1, n));
                    assert(is_frame_of(p, tokens, n, after[i], 1, n - 1));
                }
            }
        } else if t.kind is CloseBrace && before.len() > 1 {
            let top = before.len() - 1;
            let node = scope_spec::closed_node(before.last(), t.start, t.line);
            assert(is_frame(p, tokens, n - 1, before[top], 1));
            let k = choose|k: int| #[trigger]
                is_frame_of(p, tokens, n - 1, before[top], 1, k);
            assert(closes(tokens, k, n - 1));
            assert(ends_at_brace(tokens, node, k));
            assert(is_scope_of(p, tokens, len, node, k));
            lemma_close_top_fits(p, tokens, len, before, t.start, t.line);
            assert forall|i: int| #![trigger after[i]] 1 <= i < after.len() implies is_frame(
                p,
                tokens,
                n,
                after[i],
                after.len() - i,
            ) by {
                lemma_frame_kept(p, tokens, n, before[i], before.len() - i, after.len() - i);
                let j = choose|j: int| #[trigger]
                    is_frame_of(p, tokens, n, before[i], after.len() - i, j);
                assert(is_frame_of(p, tokens, n, after[i], after.len() - i, j));
            }
        } else {
            assert(after == before);
            if t.kind is CloseBrace {
                assert(before.len() == 1);
            } else {
                assert forall|i: int| #![trigger after[i]] 1 <= i < after.len() implies is_frame(
                    p,
                    tokens,
                    n,
                    after[i],
                    after.len() - i,
                ) by {
                    lemma_frame_kept(p, tokens, n, before[i], before.len() - i, before.len() - i);
                }
            }
        }
    }
}

/// The frame is that of a brace that is never closed.
spec fn is_unclosed(p: ProfileView, tokens: Seq<TokenView>, f: FrameView) -> bool {
    exists|k: int| #[trigger]
        opens(p, tokens, k, f.kind, f.name, f.body_start, f.start_line) && stays_open(
            tokens,
            k,
            tokens.len() as int,
        )
}

proof fn lemma_close_all_fits(
    p: ProfileView,
    tokens: Seq<TokenView>,
    len: int,
    frames: Seq<FrameView>,
)
    requires
        frames.len() >= 1,
        forall|i: int|
            #![trigger frames[i]]
            0 <= i < frames.len() ==> are_scopes(p, tokens, len, frames[i].children),
        forall|i: int|
            #![trigger frames[i]]
            1 <= i < frames.len() ==> is_unclosed(p, tokens, frames[i]),
    ensures
        are_scopes(p, tokens, len, scope_spec::close_all(frames, len)[0].children),
    decreases frames.len(),
{
    if frames.len() > 1 {
        let top = frames.len() - 1;
        let f = frames[top];
        assert(is_unclosed(p, tokens, f));
        let k = choose|k: int| #[trigger]
            opens(p, tokens, k, f.kind, f.name, f.body_start, f.start_line) && stays_open(
                tokens,
                k,
                tokens.len() as int,
            );
        assert(is_scope_of(p, tokens, len, scope_spec::closed_node(frames.last(), len, 0), k));
        lemma_close_top_fits(p, tokens, len, frames, len, 0);
        let after = scope_spec::close_top(frames, len, 0);
        assert forall|i: int| #![trigger after[i]] 1 <= i < after.len() implies is_unclosed(
            p,
            tokens,
            after[i],
        ) by {
            assert(is_unclosed(p, tokens, frames[i]));
        }
        lemma_close_all_fits(p, tokens, len, after);
    } else {
        assert(are_scopes(p, tokens, len, frames[0].children));
    }
}

/// **Law.** Every scope but the file is that of a `{`.  It has the kind and name of the header in front
/// of the brace, made of the tokens since the last `{`, `}` or `;`, and reaches to the `}` that closes this
/// very brace, whose lines it carries; a scope that is never closed reaches to the end of the source.
pub proof fn law_scopes_from_headers(p: ProfileView, tokens: Seq<TokenView>, len: int)
    ensures
        are_scopes(p, tokens, len, scope_spec::scope_tree(p, tokens, len).children),
{
    let n = tokens.len() as int;
    assert(tokens.take(n) =~= tokens);
    lemma_run_fits(p, tokens, n, len);
    let frames = scope_spec::parse_run(p, tokens).frames;
    assert forall|i: int| #![trigger frames[i]] 1 <= i < frames.len() implies is_unclosed(
        p,
        tokens,
        frames[i],
    ) by {
        assert(is_frame(p, tokens, n, frames[i], frames.len() - i));
        let k = choose|k: int| #[trigger]
            is_frame_of(p, tokens, n, frames[i], frames.len() - i, k);
        let f = frames[i];
        assert(opens(p, tokens, k, f.kind, f.name, f.body_start, f.start_line));
    }
    lemma_close_all_fits(p, tokens, len, frames);
}

/// **Law.** The root of the tree is the file: it has no name and spans the whole source from line 1 on.
pub proof fn law_root_is_file(p: ProfileView, tokens: Seq<TokenView>, len: int)
    ensures
        ({
            let root = scope_spec::scope_tree(p, tokens, len);
            &&& root.kind == ScopeKind::File
            &&& root.name.len() == 0
            &&& root.body_start == 0
            &&& root.body_end == len
            &&& root.start_line == 1
            &&& root.end_line == 0
        }),
{
}

/// **Law.** The contents of a scope start behind its brace, and those of the file at its start; both end
/// where the scope ends.
pub proof fn law_contents(node: ScopeView)
    ensures
        node.kind == ScopeKind::File ==> scope_spec::body_of(node).0 == node.body_start,
        node.kind != ScopeKind::File ==> scope_spec::body_of(node).0 == node.body_start + 1,
        scope_spec::body_of(node).1 == node.body_end,
{
}

// ---------------------------------------------------------------------------
// The tree as a text
// ---------------------------------------------------------------------------

/// **Law.** The dump of a tree is a line for its root, indented, with its kind and its name in brackets,
/// and then the dumps of the scopes in it one after the other, each indented by two more blanks.
pub proof fn law_tree_dump(node: ScopeView, indent: Seq<char>) -> (parts: Seq<Seq<char>>)
    ensures
        parts.len() == node.children.len(),
        forall|i: int|
            0 <= i < parts.len() ==> #[trigger] parts[i] == scope_spec::tree_text(
                node.children[i],
                indent + seq![' ', ' '],
            ),
        scope_spec::tree_text(node, indent) == indent + scope_spec::kind_label(node.kind) + seq![
            ' ',
            '[',
        ] + node.name + seq![']', '\n'] + parts.flatten(),
{
    let inner = indent + seq![' ', ' '];
    reveal_strlit("  ");
    reveal_strlit(" [");
    reveal_strlit("]\n");
    assert("  "@ =~= seq![' ', ' ']);
    assert(" ["@ =~= seq![' ', '[']);
    assert("]\n"@ =~= seq![']', '\n']);
    let parts = Seq::new(
        node.children.len(),
        |i: int| scope_spec::tree_text(node.children[i], inner),
    );
    lemma_forest_dump(node.children, parts, inner, node.children.len() as int);
    assert(parts.take(node.children.len() as int) =~= parts);
    parts
}

proof fn lemma_forest_dump(
    nodes: Seq<ScopeView>,
    parts: Seq<Seq<char>>,
    indent: Seq<char>,
    n: int,
)
    requires
        0 <= n <= nodes.len() == parts.len(),
        forall|i: int|
            0 <= i < parts.len() ==> #[trigger] parts[i] == scope_spec::tree_text(nodes[i], indent),
    ensures
        scope_spec::forest_text(nodes, n, indent) == parts.take(n).flatten(),
    decreases n,
{
    reveal_strlit("");
    if n == 0 {
        assert(parts.take(0) =~= seq![]);
        assert(scope_spec::forest_text(nodes, n, indent) =~= parts.take(n).flatten());
    } else {
        lemma_forest_dump(nodes, parts, indent, n - 1);
        let before = parts.take(n - 1);
        assert(parts.take(n) =~= before.push(parts[n - 1]));
        before.lemma_flatten_push(parts[n - 1]);
        assert(parts[n - 1] == scope_spec::tree_text(nodes[n - 1], indent));
    }
}

/// **Law.** The kinds are shown by their names: no two of them the same.
pub proof fn law_kind_labels(a: ScopeKind, b: ScopeKind)
    ensures
        scope_spec::kind_label(ScopeKind::File) == "File"@,
        scope_spec::kind_label(ScopeKind::Namespace) == "Namespace"@,
        scope_spec::kind_label(ScopeKind::Class) == "Class"@,
        scope_spec::kind_label(ScopeKind::Struct) == "Struct"@,
        scope_spec::kind_label(ScopeKind::Enum) == "Enum"@,
        scope_spec::kind_label(ScopeKind::Union) == "Union"@,
        scope_spec::kind_label(ScopeKind::Interface) == "Interface"@,
        scope_spec::kind_label(ScopeKind::Function) == "Function"@,
        scope_spec::kind_label(ScopeKind::Block) == "Block"@,
        a != b ==> scope_spec::kind_label(a) != scope_spec::kind_label(b),
{
    reveal_strlit("File");
    reveal_strlit("Namespace");
    reveal_strlit("Class");
    reveal_strlit("Struct");
    reveal_strlit("Enum");
    reveal_strlit("Union");
    reveal_strlit("Interface");
    reveal_strlit("Function");
    reveal_strlit("Block");
    assert("File"@[0] == 'F' && "File"@.len() == 4);
    assert("Namespace"@[0] == 'N');
    assert("Class"@[0] == 'C');
    assert("Struct"@[0] == 'S');
    assert("Enum"@[0] == 'E');
    assert("Union"@[0] == 'U');
    assert("Interface"@[0] == 'I');
    assert("Function"@[0] == 'F' && "Function"@.len() == 8);
    assert("Block"@[0] == 'B');
}

/// **Law.** The kinds are called by their lower-case names, a function by `fn`: no two of them the same.
pub proof fn law_kind_names(a: ScopeKind, b: ScopeKind)
    ensures
        ScopeKind::File.text() == "file"@,
        ScopeKind::Namespace.text() == "namespace"@,
        ScopeKind::Class.text() == "class"@,
        ScopeKind::Struct.text() == "struct"@,
        ScopeKind::Enum.text() == "enum"@,
        ScopeKind::Union.text() == "union"@,
        ScopeKind::Interface.text() == "interface"@,
        ScopeKind::Function.text() == "fn"@,
        ScopeKind::Block.text() == "block"@,
        a != b ==> a.text() != b.text(),
{
    reveal_strlit("file");
    reveal_strlit("namespace");
    reveal_strlit("class");
    reveal_strlit("struct");
    reveal_strlit("enum");
    reveal_strlit("union");
    reveal_strlit("interface");
    reveal_strlit("fn");
    reveal_strlit("block");
    assert("file"@[0] == 'f' && "file"@.len() == 4);
    assert("fn"@[0] == 'f' && "fn"@.len() == 2);
    assert("namespace"@[0] == 'n');
    assert("class"@[0] == 'c');
    assert("struct"@[0] == 's');
    assert("enum"@[0] == 'e');
    assert("union"@[0] == 'u');
    assert("interface"@[0] == 'i');
    assert("block"@[0] == 'b');
}

} // verus!
