//! Laws of the scope tree: nesting, one scope per brace, and what the parser ignores.

use crate::lex_laws;
use crate::lex_spec;
use crate::lex_spec::TokenView;
use crate::scope_spec;
use crate::scope_spec::{FrameView, ProfileView, ScopeView};
use vstd::prelude::*;

verus! {

// ---------------------------------------------------------------------------
// Nesting
// ---------------------------------------------------------------------------

/// The scope ends behind its start, and the scopes in it lie between its braces, each one ended
/// before the next starts.
pub open spec fn well_nested(n: ScopeView) -> bool
    decreases n,
{
    &&& n.body_start < n.body_end
    &&& forall|i: int|
        #![trigger n.children[i]]
        0 <= i < n.children.len() ==> well_nested(n.children[i]) && n.body_start
            < n.children[i].body_start && n.children[i].body_end <= n.body_end
    &&& forall|i: int, j: int|
        #![trigger n.children[i], n.children[j]]
        0 <= i < j < n.children.len() ==> n.children[i].body_end < n.children[j].body_start
}

/// The scopes are well nested and lie one after the other from `lo` to `hi`.
pub open spec fn well_ordered(nodes: Seq<ScopeView>, lo: int, hi: int) -> bool {
    &&& forall|i: int|
        #![trigger nodes[i]]
        0 <= i < nodes.len() ==> well_nested(nodes[i]) && lo <= nodes[i].body_start
            && nodes[i].body_end <= hi
    &&& forall|i: int, j: int|
        #![trigger nodes[i], nodes[j]]
        0 <= i < j < nodes.len() ==> nodes[i].body_end < nodes[j].body_start
}

/// First position at which a child of frame `k` may start.
spec fn frame_floor(frames: Seq<FrameView>, k: int) -> int {
    if k == 0 {
        0
    } else {
        frames[k].body_start + 1
    }
}

/// Frame `k` starts behind its outer frame and before `bound`, and the closed scopes in it lie
/// between its start and that of the next frame; in the innermost they end at `cap` at the latest.
spec fn frame_nested(frames: Seq<FrameView>, k: int, cap: int, bound: int) -> bool {
    &&& k >= 1 ==> frames[k].body_start < bound && frame_floor(frames, k - 1)
        <= frames[k].body_start
    &&& well_ordered(
        frames[k].children,
        frame_floor(frames, k),
        if k + 1 < frames.len() {
            frames[k + 1].body_start - 1
        } else {
            cap
        },
    )
}

spec fn frames_nested(frames: Seq<FrameView>, cap: int, bound: int) -> bool {
    &&& frames.len() >= 1
    &&& forall|k: int|
        0 <= k < frames.len() ==> #[trigger] frame_nested(frames, k, cap, bound)
}

proof fn lemma_closed_node(f: FrameView, cap: int, end: int, line: int)
    requires
        well_ordered(f.children, f.body_start + 1, cap),
        f.body_start < end,
        cap <= end,
    ensures
        well_nested(scope_spec::closed_node(f, end, line)),
{
    let node = scope_spec::closed_node(f, end, line);
    assert(node.children == f.children);
}

proof fn lemma_well_ordered_push(nodes: Seq<ScopeView>, n: ScopeView, lo: int, hi: int, end: int)
    requires
        well_ordered(nodes, lo, hi),
        well_nested(n),
        lo <= n.body_start,
        hi < n.body_start,
        n.body_end <= end,
    ensures
        well_ordered(nodes.push(n), lo, end),
{
    let grown = nodes.push(n);
    assert forall|i: int| #![trigger grown[i]] 0 <= i < grown.len() implies well_nested(grown[i])
        && lo <= grown[i].body_start && grown[i].body_end <= end by {
        if i < nodes.len() {
            assert(grown[i] == nodes[i]);
        }
    }
    assert forall|i: int, j: int| #![trigger grown[i], grown[j]] 0 <= i < j
        < grown.len() implies grown[i].body_end < grown[j].body_start by {
        assert(grown[i] == nodes[i]);
        if j < nodes.len() {
            assert(grown[j] == nodes[j]);
        }
    }
}

proof fn lemma_close_top(frames: Seq<FrameView>, cap: int, bound: int, end: int, line: int)
    requires
        frames_nested(frames, cap, bound),
        frames.len() > 1,
        bound <= end,
        cap <= end,
    ensures
        frames_nested(scope_spec::close_top(frames, end, line), end, bound),
        scope_spec::close_top(frames, end, line).len() == frames.len() - 1,
{
    let top = frames.len() - 1;
    let after = scope_spec::close_top(frames, end, line);
    let node = scope_spec::closed_node(frames[top], end, line);
    assert(frame_nested(frames, top, cap, bound));
    assert(frame_nested(frames, top - 1, cap, bound));
    lemma_closed_node(frames[top], cap, end, line);
    lemma_well_ordered_push(
        frames[top - 1].children,
        node,
        frame_floor(frames, top - 1),
        frames[top].body_start - 1,
        end,
    );
    assert forall|k: int| 0 <= k < after.len() implies #[trigger] frame_nested(
        after,
        k,
        end,
        bound,
    ) by {
        assert(frame_nested(frames, k, cap, bound));
        assert(after[k].body_start == frames[k].body_start);
        if k >= 1 {
            assert(after[k - 1].body_start == frames[k - 1].body_start);
        }
        if k + 1 < after.len() {
            assert(after[k] == frames[k]);
            assert(after[k + 1].body_start == frames[k + 1].body_start);
        }
    }
}

proof fn lemma_frames_grow(frames: Seq<FrameView>, a: int, b: int)
    requires
        frames_nested(frames, a - 1, a),
        a <= b,
    ensures
        frames_nested(frames, b - 1, b),
{
    assert forall|k: int| 0 <= k < frames.len() implies #[trigger] frame_nested(
        frames,
        k,
        b - 1,
        b,
    ) by {
        assert(frame_nested(frames, k, a - 1, a));
    }
}

proof fn lemma_open_frame(frames: Seq<FrameView>, f: FrameView, end: int)
    requires
        frames_nested(frames, f.body_start - 1, f.body_start),
        f.children.len() == 0,
        0 <= f.body_start < end,
    ensures
        frames_nested(frames.push(f), end - 1, end),
{
    let after = frames.push(f);
    assert forall|k: int| 0 <= k < after.len() implies #[trigger] frame_nested(
        after,
        k,
        end - 1,
        end,
    ) by {
        if k < frames.len() {
            assert(frame_nested(frames, k, f.body_start - 1, f.body_start));
        } else {
            assert(frame_nested(frames, k - 1, f.body_start - 1, f.body_start));
        }
    }
}

proof fn lemma_run_nested(p: ProfileView, tokens: Seq<TokenView>, len: int)
    requires
        lex_laws::tokens_ordered(tokens, 0, len),
        0 <= len,
    ensures
        frames_nested(
            scope_spec::parse_run(p, tokens).frames,
            tokens_end(tokens) - 1,
            tokens_end(tokens),
        ),
        0 <= tokens_end(tokens) <= len,
    decreases tokens.len(),
{
    if tokens.len() > 0 {
        let init = tokens.drop_last();
        let t = tokens.last();
        assert forall|i: int| 0 <= i < init.len() implies #[trigger] init[i] == tokens[i] by {}
        assert(lex_laws::tokens_ordered(init, 0, len));
        lemma_run_nested(p, init, len);
        assert(tokens[tokens.len() - 1] == t);
        if init.len() > 0 {
            assert(init.last() == tokens[tokens.len() - 2]);
        }
        let st = scope_spec::parse_run(p, init);
        let after = scope_spec::parse_run(p, tokens);
        lemma_frames_grow(st.frames, tokens_end(init), t.start);
        if t.kind is OpenBrace {
            lemma_open_frame(st.frames, after.frames.last(), t.end);
            assert(after.frames =~= st.frames.push(after.frames.last()));
        } else if t.kind is CloseBrace && st.frames.len() > 1 {
            lemma_close_top(st.frames, t.start - 1, t.start, t.start, t.line);
            assert forall|k: int| 0 <= k < after.frames.len() implies #[trigger] frame_nested(
                after.frames,
                k,
                t.end - 1,
                t.end,
            ) by {
                assert(frame_nested(after.frames, k, t.start, t.start));
            }
        } else {
            lemma_frames_grow(st.frames, t.start, t.end);
        }
    }
}

/// End of the last token; 0 if there is none.
spec fn tokens_end(tokens: Seq<TokenView>) -> int {
    if tokens.len() == 0 {
        0
    } else {
        tokens.last().end
    }
}

proof fn lemma_close_all_nested(frames: Seq<FrameView>, cap: int, bound: int, len: int)
    requires
        frames_nested(frames, cap, bound),
        cap <= len,
        bound <= len,
    ensures
        well_ordered(scope_spec::close_all(frames, len)[0].children, 0, len),
    decreases frames.len(),
{
    if frames.len() > 1 {
        lemma_close_top(frames, cap, bound, len, 0);
        lemma_close_all_nested(scope_spec::close_top(frames, len, 0), len, bound, len);
    } else {
        assert(frame_nested(frames, 0, cap, bound));
    }
}

/// **Law.** The scopes of a source lie inside it, one after the other, and every scope lies
/// between the braces of the one around it.
pub proof fn law_scopes_nested(p: ProfileView, s: Seq<u8>, python: bool)
    ensures
        well_ordered(
            scope_spec::scope_tree(p, lex_spec::lex(s, python).tokens, s.len() as int).children,
            0,
            s.len() as int,
        ),
{
    let tokens = lex_spec::lex(s, python).tokens;
    lex_laws::law_tokens_ordered(s, python);
    lemma_run_nested(p, tokens, s.len() as int);
    lemma_close_all_nested(
        scope_spec::parse_run(p, tokens).frames,
        tokens_end(tokens) - 1,
        tokens_end(tokens),
        s.len() as int,
    );
}

// ---------------------------------------------------------------------------
// One scope per brace
// ---------------------------------------------------------------------------

/// Number of scopes in a tree.
pub open spec fn node_count(n: ScopeView) -> nat
    decreases n,
{
    1 + forest_count(n.children)
}

/// Number of scopes in a sequence of trees.
pub open spec fn forest_count(nodes: Seq<ScopeView>) -> nat
    decreases nodes,
{
    if nodes.len() == 0 {
        0
    } else {
        forest_count(nodes.drop_last()) + node_count(nodes.last())
    }
}

/// Number of opening braces.
pub open spec fn open_braces(tokens: Seq<TokenView>) -> nat
    decreases tokens.len(),
{
    if tokens.len() == 0 {
        0
    } else {
        open_braces(tokens.drop_last()) + (if tokens.last().kind is OpenBrace {
            1nat
        } else {
            0
        })
    }
}

/// Number of scopes, open and closed, in the frames; the file is not counted.
spec fn frames_count(frames: Seq<FrameView>) -> int
    decreases frames.len(),
{
    if frames.len() == 0 {
        -1
    } else {
        frames_count(frames.drop_last()) + 1 + forest_count(frames.last().children)
    }
}

proof fn lemma_close_top_count(frames: Seq<FrameView>, end: int, line: int)
    requires
        frames.len() > 1,
    ensures
        frames_count(scope_spec::close_top(frames, end, line)) == frames_count(frames),
{
    reveal_with_fuel(frames_count, 3);
    let outer = frames.drop_last();
    let node = scope_spec::closed_node(frames.last(), end, line);
    let after = scope_spec::close_top(frames, end, line);
    assert(after.drop_last() =~= outer.drop_last());
    assert(after.last().children =~= outer.last().children.push(node));
    assert(outer.last().children.push(node).drop_last() =~= outer.last().children);
    assert(node.children == frames.last().children);
    assert(node_count(node) == 1 + forest_count(node.children));
}

proof fn lemma_run_count(p: ProfileView, tokens: Seq<TokenView>)
    ensures
        frames_count(scope_spec::parse_run(p, tokens).frames) == open_braces(tokens),
        scope_spec::parse_run(p, tokens).frames.len() >= 1,
    decreases tokens.len(),
{
    reveal_with_fuel(frames_count, 2);
    if tokens.len() > 0 {
        lemma_run_count(p, tokens.drop_last());
        let st = scope_spec::parse_run(p, tokens.drop_last());
        let after = scope_spec::parse_run(p, tokens);
        let t = tokens.last();
        if t.kind is OpenBrace {
            assert(after.frames.drop_last() =~= st.frames);
            assert(after.frames.last().children =~= seq![]);
        } else if t.kind is CloseBrace && st.frames.len() > 1 {
            lemma_close_top_count(st.frames, t.start, t.line);
        }
    } else {
        let f = scope_spec::parse_run(p, tokens).frames;
        assert(f.drop_last() =~= seq![]);
        assert(forest_count(f.last().children) == 0);
    }
}

proof fn lemma_close_all_count(frames: Seq<FrameView>, len: int)
    requires
        frames.len() >= 1,
    ensures
        frames_count(scope_spec::close_all(frames, len)) == frames_count(frames),
        scope_spec::close_all(frames, len).len() == 1,
    decreases frames.len(),
{
    if frames.len() > 1 {
        lemma_close_top_count(frames, len, 0);
        lemma_close_all_count(scope_spec::close_top(frames, len, 0), len);
    }
}

/// **Law.** Every `{` opens exactly one scope, whether or not it is closed: the tree has one
/// scope for each opening brace, and the file.
pub proof fn law_one_scope_per_brace(p: ProfileView, tokens: Seq<TokenView>, len: int)
    ensures
        node_count(scope_spec::scope_tree(p, tokens, len)) == 1 + open_braces(tokens),
{
    reveal_with_fuel(frames_count, 2);
    lemma_run_count(p, tokens);
    let frames = scope_spec::close_all(scope_spec::parse_run(p, tokens).frames, len);
    lemma_close_all_count(scope_spec::parse_run(p, tokens).frames, len);
    assert(frames.drop_last() =~= seq![]);
    assert(frames.last() == frames[0]);
}

// ---------------------------------------------------------------------------
// What the parser ignores
// ---------------------------------------------------------------------------

/// The token takes part in the scope structure.
pub open spec fn is_visible(t: TokenView) -> bool {
    !(t.kind is Comment || t.kind is Preprocessor || t.kind is StringLiteral)
}

/// **Law.** Comments, string literals and directives are invisible to the parser: leaving them
/// out gives the same tree.
pub proof fn law_invisible_tokens(p: ProfileView, tokens: Seq<TokenView>, len: int)
    ensures
        scope_spec::scope_tree(p, tokens.filter(|t: TokenView| is_visible(t)), len)
            == scope_spec::scope_tree(p, tokens, len),
{
    lemma_run_visible(p, tokens);
}

proof fn lemma_run_visible(p: ProfileView, tokens: Seq<TokenView>)
    ensures
        scope_spec::parse_run(p, tokens.filter(|t: TokenView| is_visible(t)))
            == scope_spec::parse_run(p, tokens),
    decreases tokens.len(),
{
    reveal(Seq::filter);
    if tokens.len() > 0 {
        let visible = |t: TokenView| is_visible(t);
        let init = tokens.drop_last();
        let t = tokens.last();
        lemma_run_visible(p, init);
        if is_visible(t) {
            assert(tokens.filter(visible) =~= init.filter(visible).push(t));
            assert(init.filter(visible).push(t).drop_last() =~= init.filter(visible));
        } else {
            assert(tokens.filter(visible) =~= init.filter(visible));
        }
    }
}

/// **Law.** A `}` that no `{` is open for closes nothing.
pub proof fn law_stray_brace_absorbed(
    p: ProfileView,
    tokens: Seq<TokenView>,
    t: TokenView,
    len: int,
)
    requires
        scope_spec::parse_run(p, tokens).frames.len() == 1,
        t.kind is CloseBrace,
    ensures
        scope_spec::scope_tree(p, tokens.push(t), len) == scope_spec::scope_tree(p, tokens, len),
{
    assert(tokens.push(t).drop_last() =~= tokens);
}

// ---------------------------------------------------------------------------
// Scopes are brace pairs
// ---------------------------------------------------------------------------

/// An opening brace stands at the position, on the line.
pub open spec fn opens_at(tokens: Seq<TokenView>, start: int, line: int) -> bool {
    exists|k: int|
        0 <= k < tokens.len() && (#[trigger] tokens[k]).kind is OpenBrace && tokens[k].start
            == start && tokens[k].line == line
}

/// A closing brace stands at the position, on the line.
pub open spec fn closes_at(tokens: Seq<TokenView>, start: int, line: int) -> bool {
    exists|k: int|
        0 <= k < tokens.len() && (#[trigger] tokens[k]).kind is CloseBrace && tokens[k].start
            == start && tokens[k].line == line
}

/// The scope starts at an opening brace and ends at a closing one, or, where it has none, with the
/// source; and so do the scopes in it.
pub open spec fn is_brace_pair(n: ScopeView, tokens: Seq<TokenView>, len: int) -> bool
    decreases n,
{
    &&& opens_at(tokens, n.body_start, n.start_line)
    &&& closes_at(tokens, n.body_end, n.end_line) || (n.body_end == len && n.end_line == 0)
    &&& forall|i: int|
        #![trigger n.children[i]]
        0 <= i < n.children.len() ==> is_brace_pair(n.children[i], tokens, len)
}

/// All scopes are brace pairs.
pub open spec fn are_brace_pairs(nodes: Seq<ScopeView>, tokens: Seq<TokenView>, len: int) -> bool {
    forall|i: int|
        #![trigger nodes[i]]
        0 <= i < nodes.len() ==> is_brace_pair(nodes[i], tokens, len)
}

/// The open scopes but the file start at an opening brace, and the closed ones in them are pairs.
spec fn frames_paired(frames: Seq<FrameView>, tokens: Seq<TokenView>, len: int) -> bool {
    forall|k: int|
        #![trigger frames[k]]
        0 <= k < frames.len() ==> are_brace_pairs(frames[k].children, tokens, len) && (k >= 1
            ==> opens_at(tokens, frames[k].body_start, frames[k].start_line))
}

proof fn lemma_close_top_paired(
    frames: Seq<FrameView>,
    tokens: Seq<TokenView>,
    len: int,
    end: int,
    line: int,
)
    requires
        frames_paired(frames, tokens, len),
        frames.len() > 1,
        closes_at(tokens, end, line) || (end == len && line == 0),
    ensures
        frames_paired(scope_spec::close_top(frames, end, line), tokens, len),
{
    let top = frames.len() - 1;
    let node = scope_spec::closed_node(frames[top], end, line);
    let after = scope_spec::close_top(frames, end, line);
    assert(node.children == frames[top].children);
    assert(is_brace_pair(node, tokens, len));
    assert forall|k: int| #![trigger after[k]] 0 <= k < after.len() implies are_brace_pairs(
        after[k].children,
        tokens,
        len,
    ) && (k >= 1 ==> opens_at(tokens, after[k].body_start, after[k].start_line)) by {
        let old_children = frames[k].children;
        if k < top - 1 {
            assert(after[k] == frames[k]);
        } else {
            let grown = after[k].children;
            assert(grown == old_children.push(node));
            assert forall|i: int| #![trigger grown[i]] 0 <= i < grown.len() implies is_brace_pair(
                grown[i],
                tokens,
                len,
            ) by {
                if i < old_children.len() {
                    assert(grown[i] == old_children[i]);
                }
            }
        }
    }
}

proof fn lemma_run_paired(p: ProfileView, tokens: Seq<TokenView>, n: int, len: int)
    requires
        0 <= n <= tokens.len(),
    ensures
        frames_paired(scope_spec::parse_run(p, tokens.take(n)).frames, tokens, len),
        scope_spec::parse_run(p, tokens.take(n)).frames.len() >= 1,
    decreases n,
{
    if n > 0 {
        lemma_run_paired(p, tokens, n - 1, len);
        assert(tokens.take(n).drop_last() =~= tokens.take(n - 1));
        let t = tokens[n - 1];
        assert(tokens.take(n).last() == t);
        let st = scope_spec::parse_run(p, tokens.take(n - 1));
        let after = scope_spec::parse_run(p, tokens.take(n));
        if t.kind is OpenBrace {
            assert(opens_at(tokens, t.start, t.line));
            assert forall|k: int|
                #![trigger after.frames[k]]
                0 <= k < after.frames.len() implies are_brace_pairs(
                after.frames[k].children,
                tokens,
                len,
            ) && (k >= 1 ==> opens_at(
                tokens,
                after.frames[k].body_start,
                after.frames[k].start_line,
            )) by {
                if k < st.frames.len() {
                    assert(after.frames[k] == st.frames[k]);
                }
            }
        } else if t.kind is CloseBrace && st.frames.len() > 1 {
            assert(closes_at(tokens, t.start, t.line));
            lemma_close_top_paired(st.frames, tokens, len, t.start, t.line);
        }
    }
}

proof fn lemma_close_all_paired(frames: Seq<FrameView>, tokens: Seq<TokenView>, len: int)
    requires
        frames_paired(frames, tokens, len),
        frames.len() >= 1,
    ensures
        are_brace_pairs(scope_spec::close_all(frames, len)[0].children, tokens, len),
    decreases frames.len(),
{
    if frames.len() > 1 {
        lemma_close_top_paired(frames, tokens, len, len, 0);
        lemma_close_all_paired(scope_spec::close_top(frames, len, 0), tokens, len);
    }
}

/// **Law.** Every scope but the file starts at an opening brace and ends at a closing one, whose
/// lines it carries; a scope without a closing brace ends with the source.
pub proof fn law_scopes_are_brace_pairs(p: ProfileView, tokens: Seq<TokenView>, len: int)
    ensures
        are_brace_pairs(scope_spec::scope_tree(p, tokens, len).children, tokens, len),
{
    lemma_run_paired(p, tokens, tokens.len() as int, len);
    assert(tokens.take(tokens.len() as int) =~= tokens);
    lemma_close_all_paired(scope_spec::parse_run(p, tokens).frames, tokens, len);
}

} // verus!
