//! What a stylesheet says: which rules it holds, which elements they apply to, and where a document
//! keeps its styles.
use crate::appfront::css::{
    block_at, block_props, matches_element, rules_of_block, rules_of_blocks, selector_of,
    selector_rules, sheet_rules, style_blocks, PropsView, RuleView, SelectorView,
};
use crate::appfront::layout::{above, classes_in, color_at, inline_in, kind_at, props_at, KindView};
use crate::runtime::html::{DataView, NodeView};
use crate::runtime::stream_laws::free_of;
use crate::string_laws::{
    all_white, law_pieces_are_between_separators, law_trim_takes_white_space, lemma_find_char,
    lemma_find_mark, lemma_find_moves, tight,
};
use crate::strings::{find_from, lemma_find_from, lower_seq, occurs, pieces, white_space, words};
use vstd::prelude::*;

verus! {

/// Whether a text holds none of the marks that rules are made of.
pub open spec fn plain_selector(s: Seq<char>) -> bool {
    s.len() > 0 && tight(s) && !s.contains(',') && !s.contains('{') && !s.contains('}')
}

/// What a selector stands for: `*` for everything, a name behind a dot for a class, and anything
/// else for a tag in whatever case.
pub proof fn law_selectors(c: Seq<char>, t: Seq<char>)
    requires
        t.len() > 0,
        t[0] != '.',
        t[0] != '*',
    ensures
        selector_of("*"@) == SelectorView::Universal,
        selector_of(seq!['.'] + c) == SelectorView::Class(c),
        selector_of(t) == SelectorView::Tag(lower_seq(t)),
{
    reveal_strlit("*");
    let d = seq!['.'] + c;
    assert(d[0] == '.');
    assert("*"@[0] == '*');
    assert(d.skip(1) =~= c);
}

/// `*` applies to every element, a class to the elements that have it, and a tag to the elements of
/// that tag.
pub proof fn law_selected_elements(
    tag: Seq<char>,
    classes: Seq<Seq<char>>,
    c: Seq<char>,
    t: Seq<char>,
)
    ensures
        matches_element(SelectorView::Universal, tag, classes),
        matches_element(SelectorView::Class(c), tag, classes) <==> exists|i: int|
            0 <= i < classes.len() && classes[i] == c,
        matches_element(SelectorView::Tag(t), tag, classes) <==> t == tag,
{
}

/// A rule is read as its selector with what its braces declare, in front of the rules that follow.
pub proof fn law_rules_are_read(s: Seq<char>, body: Seq<char>, rest: Seq<char>)
    requires
        plain_selector(s),
        !body.contains('}'),
        body.len() == 0 || !white_space(body.last()),
    ensures
        sheet_rules(s + seq!['{'] + body + seq!['}'] + rest) == seq![
            (selector_of(s), block_props(body)),
        ] + sheet_rules(rest),
{
    let block = s + seq!['{'] + body;
    let all = s + seq!['{'] + body + seq!['}'] + rest;
    assert(!block.contains('}')) by {
        if block.contains('}') {
            let i = choose|i: int| 0 <= i < block.len() && block[i] == '}';
            if i < s.len() {
                assert(s[i] == '}');
            } else if i > s.len() {
                assert(body[i - s.len() - 1] == '}');
            }
        }
    }
    law_pieces_are_between_separators(block, '}', rest);
    assert(all =~= block + seq!['}'] + rest);
    lemma_block(s, body);
    lemma_blocks_front(block, pieces(rest, '}'));
}

#[verifier::rlimit(40)]
proof fn lemma_block(s: Seq<char>, body: Seq<char>)
    requires
        plain_selector(s),
        body.len() == 0 || !white_space(body.last()),
    ensures
        rules_of_block(s + seq!['{'] + body) == seq![(selector_of(s), block_props(body))],
{
    let block = s + seq!['{'] + body;
    let e = Seq::<char>::empty();
    assert(block[0] == s[0]);
    if body.len() > 0 {
        assert(block.last() == body.last());
    } else {
        assert(block.last() == '{');
    }
    law_trim_takes_white_space(e, block, e);
    assert(e + block + e =~= block);
    reveal_strlit("{");
    assert("{"@ =~= seq!['{']);
    lemma_find_char(s, "{"@, body);
    assert(block =~= s + "{"@ + body);
    let n = s.len() as int;
    assert(block.take(n) =~= s);
    assert(block.skip(n + 1) =~= body);
    law_pieces_are_between_separators(s, ',', e);
    law_trim_takes_white_space(e, s, e);
    assert(e + s + e =~= s);
    let p = block_props(body);
    let none = Seq::<Seq<char>>::empty();
    assert(seq![s].drop_last() =~= none);
    assert(selector_rules(none, p) == Seq::<RuleView>::empty());
    assert(seq![s].last() == s);
    assert(selector_rules(seq![s], p) =~= seq![(selector_of(s), p)]);
}

proof fn lemma_blocks_front(block: Seq<char>, blocks: Seq<Seq<char>>)
    ensures
        rules_of_blocks(seq![block] + blocks) == rules_of_block(block) + rules_of_blocks(blocks),
    decreases blocks.len(),
{
    let all = seq![block] + blocks;
    let none = Seq::<Seq<char>>::empty();
    if blocks.len() == 0 {
        assert(all =~= seq![block]);
        assert(all.drop_last() =~= none);
        assert(rules_of_blocks(none) == Seq::<RuleView>::empty());
        assert(all.last() == block);
    } else {
        lemma_blocks_front(block, blocks.drop_last());
        assert(all.drop_last() =~= seq![block] + blocks.drop_last());
        assert(all.last() == blocks.last());
    }
    assert(rules_of_blocks(all) =~= rules_of_block(block) + rules_of_blocks(blocks));
}

/// Selectors between commas share what their braces declare, each for itself and in order; an empty
/// one selects nothing.
pub proof fn law_shared_declarations(sels: Seq<Seq<char>>, a: Seq<char>, s: Seq<char>, b: Seq<char>, p: PropsView)
    requires
        all_white(a),
        tight(s),
        all_white(b),
    ensures
        selector_rules(sels.push(a + s + b), p) == (if s.len() > 0 {
            selector_rules(sels, p).push((selector_of(s), p))
        } else {
            selector_rules(sels, p)
        }),
{
    let t = a + s + b;
    law_trim_takes_white_space(a, s, b);
    assert(sels.push(t).drop_last() =~= sels);
    assert(sels.push(t).last() == t);
}

/// The styles of a document are what its `style` elements hold, each followed by a line feed, in
/// order.
#[verifier::rlimit(40)]
pub proof fn law_style_elements(
    pre: Seq<char>,
    attrs: Seq<char>,
    css: Seq<char>,
    rest: Seq<char>,
)
    requires
        free_of(pre, "<style"@),
        !attrs.contains('>'),
        free_of(css, "</style>"@),
    ensures
        style_blocks(pre, 0) == Seq::<char>::empty(),
        style_blocks(
            pre + "<style"@ + attrs + seq!['>'] + css + "</style>"@ + rest,
            0,
        ) == css + seq!['\n'] + style_blocks(rest, 0),
{
    reveal_strlit("<style");
    reveal_strlit(">");
    reveal_strlit("</style>");
    lemma_find_from(pre, "<style"@, 0);
    if let Some(i) = find_from(pre, "<style"@, 0) {
        assert(occurs(pre, "<style"@, i));
    }
    let s = pre + "<style"@ + attrs + seq!['>'] + css + "</style>"@ + rest;
    let open = pre.len() as int;
    let tail = attrs + seq!['>'] + css + "</style>"@ + rest;
    assert(s =~= pre + "<style"@ + tail);
    lemma_find_mark(pre, "<style"@, tail);
    let head = "<style"@ + attrs;
    assert(!head.contains('>')) by {
        if head.contains('>') {
            let i = choose|i: int| 0 <= i < head.len() && head[i] == '>';
            if i >= 6 {
                assert(attrs[i - 6] == '>');
            }
        }
    }
    let more = css + "</style>"@ + rest;
    assert(">"@ =~= seq!['>']);
    lemma_find_char(head, ">"@, more);
    assert(s =~= pre + (head + ">"@ + more));
    lemma_find_moves(pre, head + ">"@ + more, ">"@, 0);
    let end = open + head.len();
    let front = pre + head + seq!['>'];
    assert(s =~= front + more);
    assert(front.len() == end + 1);
    lemma_find_mark(css, "</style>"@, rest);
    lemma_find_moves(front, more, "</style>"@, 0);
    let close = end + 1 + css.len();
    assert(block_at(s, 0) == Some((end + 1, close)));
    assert(s.subrange(end + 1, close) =~= css);
    let done = front + css + "</style>"@;
    assert(done.len() == close + 8);
    assert(s =~= done + rest);
    lemma_blocks_move(done, rest, 0);
    assert(css.push('\n') =~= css + seq!['\n']);
}

#[verifier::rlimit(40)]
proof fn lemma_blocks_move(p: Seq<char>, s: Seq<char>, i: int)
    requires
        0 <= i <= s.len(),
    ensures
        style_blocks(p + s, p.len() + i) == style_blocks(s, i),
    decreases s.len() - i,
{
    reveal_strlit("<style");
    reveal_strlit(">");
    reveal_strlit("</style>");
    lemma_find_moves(p, s, "<style"@, i);
    lemma_find_from(s, "<style"@, i);
    if let Some(open) = find_from(s, "<style"@, i) {
        assert(occurs(s, "<style"@, open));
        lemma_find_moves(p, s, ">"@, open);
        lemma_find_from(s, ">"@, open);
        if let Some(end) = find_from(s, ">"@, open) {
            assert(occurs(s, ">"@, end));
            lemma_find_moves(p, s, "</style>"@, end + 1);
            lemma_find_from(s, "</style>"@, end + 1);
            if let Some(close) = find_from(s, "</style>"@, end + 1) {
                assert(occurs(s, "</style>"@, close));
                lemma_blocks_move(p, s, close + 8);
                assert((p + s).subrange(p.len() + end + 1, p.len() + close) =~= s.subrange(
                    end + 1,
                    close,
                ));
            }
        }
    }
}

/// An element has the classes that its `class` lists, between white space, and the inline style of
/// its last `style`; other attributes give neither.
pub proof fn law_style_attributes(
    attrs: Seq<(Seq<char>, Seq<char>)>,
    name: Seq<char>,
    value: Seq<char>,
)
    ensures
        ({
            let all = attrs.push((name, value));
            &&& lower_seq(name) == "class"@ ==> classes_in(all) == classes_in(attrs) + words(value)
                && inline_in(all) == inline_in(attrs)
            &&& lower_seq(name) == "style"@ ==> inline_in(all) == value && classes_in(all)
                == classes_in(attrs)
            &&& lower_seq(name) != "class"@ && lower_seq(name) != "style"@ ==> classes_in(all)
                == classes_in(attrs) && inline_in(all) == inline_in(attrs)
        }),
{
    reveal_strlit("class");
    reveal_strlit("style");
    assert("class"@[0] == 'c' && "style"@[0] == 's');
    assert(attrs.push((name, value)).drop_last() =~= attrs);
}

/// A run of text is planned as its text, without the white space around it; white space alone is not
/// planned.
pub proof fn law_text_runs(depth: usize, a: Seq<char>, t: Seq<char>, b: Seq<char>, sheet: Seq<RuleView>)
    requires
        all_white(a),
        tight(t),
        all_white(b),
    ensures
        kind_at((depth, DataView::Run(a + t + b)), sheet) == (if t.len() > 0 {
            Some(KindView::Text(t))
        } else {
            None
        }),
{
    law_trim_takes_white_space(a, t, b);
}

/// The node around another is the nearest before it that stands less deep.
pub proof fn law_surrounding_node(nodes: Seq<NodeView>, k: int, depth: usize)
    requires
        0 <= k <= nodes.len(),
    ensures
        above(nodes, k, depth) matches Some(p) ==> 0 <= p < k && nodes[p].0 < depth && forall|j: int|
            p < j < k ==> (#[trigger] nodes[j]).0 >= depth,
        above(nodes, k, depth) is None ==> forall|j: int| 0 <= j < k ==> (#[trigger] nodes[j]).0 >= depth,
    decreases k,
{
    if k > 0 {
        law_surrounding_node(nodes, k - 1, depth);
    }
}

/// Text is black where neither it nor anything around it says otherwise.
pub proof fn law_default_color(nodes: Seq<NodeView>, sheet: Seq<RuleView>, i: int)
    requires
        0 <= i < nodes.len(),
        forall|j: int| 0 <= j <= i ==> props_at(#[trigger] nodes[j], sheet).color is None,
    ensures
        color_at(nodes, sheet, i) == seq![0u8, 0, 0, 255],
    decreases i,
{
    law_surrounding_node(nodes, i, nodes[i].0);
    assert(props_at(nodes[i], sheet).color is None);
    if let Some(p) = above(nodes, i, nodes[i].0) {
        law_default_color(nodes, sheet, p);
    }
}

} // verus!
