//! What the collection of comments promises of every syntax tree: no comment is
//! passed over, nothing else is taken, and what is taken is what stands there.

use vstd::prelude::*;

#[allow(unused_imports)]
use crate::extract::{
    block_comments, cleaned, comment_views, comments_of, continues, countable, extended, extracts, first_prefix,
    line_delimiter, line_delimiters, merged, raw_comment, raw_comments, raw_comments_of, raw_views, text_between,
    without_newlines, Comment, CommentView, ExtractError, RawComment, RawView,
};
#[allow(unused_imports)]
use crate::grammar::{grammar_loads, parsed, SyntaxNode, SyntaxTree};
#[allow(unused_imports)]
use vstd::utf8::{decode_utf8, encode_utf8, valid_utf8};

verus! {

/// The node that is reached from `root` by taking the child of each number in
/// turn.
pub open spec fn node_at(root: SyntaxTree, way: Seq<int>) -> SyntaxTree
    decreases way.len(),
{
    if way.len() == 0 {
        root
    } else {
        node_at(root.children[way[0]], way.skip(1))
    }
}

/// Whether there is a child of each number in turn, and no node is passed on
/// the way whose kind ends in `comment`.
pub open spec fn open_way(root: SyntaxTree, way: Seq<int>) -> bool
    decreases way.len(),
{
    way.len() > 0 ==> {
        &&& !"comment"@.is_suffix_of(root.kind)
        &&& 0 <= way[0] < root.children.len()
        &&& open_way(root.children[way[0]], way.skip(1))
    }
}

/// Whether `raw` is what stands in `source` at `node`: where the node begins,
/// the row on which its text ends, its text without line ends behind it, and
/// whether that is one line behind a line delimiter.
pub open spec fn stands_at(raw: RawView, node: SyntaxTree, source: Seq<char>) -> bool {
    &&& raw.start_row == node.start_row
    &&& raw.start_col == node.start_col
    &&& node.end_col == 0 && node.end_row > node.start_row ==> raw.end_row == node.end_row - 1
    &&& node.end_col != 0 || node.end_row <= node.start_row ==> raw.end_row == node.end_row
    &&& raw.raw == without_newlines(text_between(source, node.start_byte, node.end_byte))
    &&& raw.line_run <==> raw.start_row == raw.end_row && ("//"@.is_prefix_of(raw.raw) || "#"@.is_prefix_of(raw.raw)
        || "--"@.is_prefix_of(raw.raw) || ";"@.is_prefix_of(raw.raw) || "%"@.is_prefix_of(raw.raw)
        || "(*"@.is_prefix_of(raw.raw))
}

proof fn lemma_first_prefix(s: Seq<char>, delimiters: Seq<Seq<char>>, i: int)
    requires
        0 <= i < delimiters.len(),
        delimiters[i].is_prefix_of(s),
        forall|j: int| 0 <= j < i ==> !(#[trigger] delimiters[j]).is_prefix_of(s),
    ensures
        first_prefix(s, delimiters) == delimiters[i],
    decreases i,
{
    if i > 0 {
        let rest = delimiters.skip(1);
        assert(!delimiters[0].is_prefix_of(s));
        assert forall|j: int| 0 <= j < i - 1 implies !(#[trigger] rest[j]).is_prefix_of(s) by {
            assert(rest[j] == delimiters[j + 1]);
        }
        assert(rest[i - 1] == delimiters[i]);
        lemma_first_prefix(s, rest, i - 1);
    }
}

proof fn lemma_no_prefix(s: Seq<char>, delimiters: Seq<Seq<char>>)
    requires
        forall|j: int| 0 <= j < delimiters.len() ==> !(#[trigger] delimiters[j]).is_prefix_of(s),
    ensures
        first_prefix(s, delimiters).len() == 0,
    decreases delimiters.len(),
{
    if delimiters.len() > 0 {
        let rest = delimiters.skip(1);
        assert(!delimiters[0].is_prefix_of(s));
        assert forall|j: int| 0 <= j < rest.len() implies !(#[trigger] rest[j]).is_prefix_of(s) by {
            assert(rest[j] == delimiters[j + 1]);
        }
        lemma_no_prefix(s, rest);
    }
}

/// A line comment is known by the longest delimiter that it begins with.
pub proof fn longest_line_delimiter_counts(raw: Seq<char>)
    ensures
        line_delimiter(raw) == if "////"@.is_prefix_of(raw) {
            "////"@
        } else if "//!"@.is_prefix_of(raw) {
            "//!"@
        } else if "///"@.is_prefix_of(raw) {
            "///"@
        } else if "//"@.is_prefix_of(raw) {
            "//"@
        } else if "#!"@.is_prefix_of(raw) {
            "#!"@
        } else if "#"@.is_prefix_of(raw) {
            "#"@
        } else if "--"@.is_prefix_of(raw) {
            "--"@
        } else if ";;"@.is_prefix_of(raw) {
            ";;"@
        } else if ";"@.is_prefix_of(raw) {
            ";"@
        } else if "%%"@.is_prefix_of(raw) {
            "%%"@
        } else if "%"@.is_prefix_of(raw) {
            "%"@
        } else if "(*"@.is_prefix_of(raw) {
            "(*"@
        } else {
            Seq::<char>::empty()
        },
{
    let all = line_delimiters();
    if exists|i: int| 0 <= i < all.len() && (#[trigger] all[i]).is_prefix_of(raw) {
        let i = lemma_least(raw, all);
        lemma_first_prefix(raw, all, i);
        assert forall|j: int| 0 <= j < i implies !(#[trigger] all[j]).is_prefix_of(raw) by {}
        assert(all[0] == "////"@ && all[1] == "//!"@ && all[2] == "///"@ && all[3] == "//"@);
        assert(all[4] == "#!"@ && all[5] == "#"@ && all[6] == "--"@ && all[7] == ";;"@);
        assert(all[8] == ";"@ && all[9] == "%%"@ && all[10] == "%"@ && all[11] == "(*"@);
    } else {
        lemma_no_prefix(raw, all);
        assert(all[0] == "////"@ && all[1] == "//!"@ && all[2] == "///"@ && all[3] == "//"@);
        assert(all[4] == "#!"@ && all[5] == "#"@ && all[6] == "--"@ && all[7] == ";;"@);
        assert(all[8] == ";"@ && all[9] == "%%"@ && all[10] == "%"@ && all[11] == "(*"@);
        assert(line_delimiter(raw) =~= Seq::<char>::empty());
    }
}

/// The first of the delimiters that `s` begins with.
proof fn lemma_least(s: Seq<char>, delimiters: Seq<Seq<char>>) -> (i: int)
    requires
        exists|k: int| 0 <= k < delimiters.len() && (#[trigger] delimiters[k]).is_prefix_of(s),
    ensures
        0 <= i < delimiters.len(),
        delimiters[i].is_prefix_of(s),
        forall|j: int| 0 <= j < i ==> !(#[trigger] delimiters[j]).is_prefix_of(s),
    decreases delimiters.len(),
{
    if delimiters[0].is_prefix_of(s) {
        0
    } else {
        let rest = delimiters.skip(1);
        let k = choose|k: int| 0 <= k < delimiters.len() && (#[trigger] delimiters[k]).is_prefix_of(s);
        assert(rest[k - 1] == delimiters[k]);
        let m = lemma_least(s, rest);
        assert(rest[m] == delimiters[m + 1]);
        assert forall|j: int| 0 <= j < m + 1 implies !(#[trigger] delimiters[j]).is_prefix_of(s) by {
            if j > 0 {
                assert(rest[j - 1] == delimiters[j]);
            }
        }
        m + 1
    }
}

proof fn lemma_line_delimiter_begins(raw: Seq<char>)
    ensures
        line_delimiter(raw).len() > 0 <==> ("//"@.is_prefix_of(raw) || "#"@.is_prefix_of(raw) || "--"@.is_prefix_of(raw)
            || ";"@.is_prefix_of(raw) || "%"@.is_prefix_of(raw) || "(*"@.is_prefix_of(raw)),
{
    longest_line_delimiter_counts(raw);
    reveal_strlit("////");
    reveal_strlit("//!");
    reveal_strlit("///");
    reveal_strlit("//");
    reveal_strlit("#!");
    reveal_strlit("#");
    reveal_strlit("--");
    reveal_strlit(";;");
    reveal_strlit(";");
    reveal_strlit("%%");
    reveal_strlit("%");
    reveal_strlit("(*");
    lemma_prefix_of_prefix("//"@, "////"@, raw);
    lemma_prefix_of_prefix("//"@, "//!"@, raw);
    lemma_prefix_of_prefix("//"@, "///"@, raw);
    lemma_prefix_of_prefix("#"@, "#!"@, raw);
    lemma_prefix_of_prefix(";"@, ";;"@, raw);
    lemma_prefix_of_prefix("%"@, "%%"@, raw);
}

proof fn lemma_prefix_of_prefix(a: Seq<char>, b: Seq<char>, s: Seq<char>)
    requires
        a.is_prefix_of(b),
    ensures
        b.is_prefix_of(s) ==> a.is_prefix_of(s),
{
    if b.is_prefix_of(s) {
        assert(a =~= s.take(a.len() as int)) by {
            assert forall|i: int| 0 <= i < a.len() implies a[i] == s[i] by {
                assert(a[i] == b[i]);
                assert(b[i] == s[i]);
            }
        }
    }
}

proof fn lemma_raw_comment_stands(node: SyntaxTree, source: Seq<char>)
    ensures
        stands_at(raw_comment(node, source), node, source),
{
    lemma_line_delimiter_begins(raw_comment(node, source).raw);
}

/// A node whose kind ends in `comment` is collected as one comment, with
/// nothing from below it; any other node, whatever its kind, gives what its
/// children give, in their order.
pub proof fn other_nodes_give_what_their_children_give(
    node: SyntaxTree,
    source: Seq<char>,
    a: Seq<SyntaxTree>,
    child: SyntaxTree,
    b: Seq<SyntaxTree>,
)
    ensures
        "comment"@.is_suffix_of(node.kind) ==> raw_comments(node, source).len() == 1 && stands_at(
            raw_comments(node, source)[0],
            node,
            source,
        ),
        !"comment"@.is_suffix_of(node.kind) && node.children == a.push(child) + b ==> raw_comments(node, source)
            == raw_comments_of(a, source) + raw_comments(child, source) + raw_comments_of(b, source),
        !"comment"@.is_suffix_of(node.kind) && node.children.len() == 0 ==> raw_comments(node, source).len() == 0,
        raw_comments_of(a.push(child), source) == raw_comments_of(a, source) + raw_comments(child, source),
        raw_comments_of(Seq::empty(), source).len() == 0,
{
    lemma_raw_comment_stands(node, source);
    lemma_raw_comments_joined(a.push(child), b, source);
    assert(a.push(child).drop_last() =~= a);
}

proof fn lemma_raw_comments_joined(a: Seq<SyntaxTree>, b: Seq<SyntaxTree>, source: Seq<char>)
    ensures
        raw_comments_of(a + b, source) == raw_comments_of(a, source) + raw_comments_of(b, source),
    decreases b.len(),
{
    if b.len() == 0 {
        assert(a + b =~= a);
        assert(raw_comments_of(a, source) + raw_comments_of(b, source) =~= raw_comments_of(a, source));
    } else {
        assert((a + b).drop_last() =~= a + b.drop_last());
        assert((a + b).last() == b.last());
        lemma_raw_comments_joined(a, b.drop_last(), source);
        assert(raw_comments_of(a + b, source) =~= raw_comments_of(a, source) + raw_comments_of(b, source));
    }
}

/// What a child of a node that is no comment gives is among what the node gives.
proof fn lemma_child_is_collected(node: SyntaxTree, source: Seq<char>, i: int)
    requires
        0 <= i < node.children.len(),
        !"comment"@.is_suffix_of(node.kind),
    ensures
        raw_comments(node, source) == raw_comments_of(node.children.take(i), source) + raw_comments(
            node.children[i],
            source,
        ) + raw_comments_of(node.children.skip(i + 1), source),
{
    let a = node.children.take(i);
    let b = node.children.skip(i + 1);
    assert(node.children =~= a.push(node.children[i]) + b);
    other_nodes_give_what_their_children_give(node, source, a, node.children[i], b);
}

/// No comment is passed over: each node whose kind ends in `comment` is
/// collected, however deep it lies and whatever the nodes above it are, as long
/// as none of them is a comment itself.
pub proof fn every_comment_is_collected(root: SyntaxTree, source: Seq<char>, way: Seq<int>)
    requires
        open_way(root, way),
        "comment"@.is_suffix_of(node_at(root, way).kind),
    ensures
        exists|k: int|
            0 <= k < raw_comments(root, source).len() && stands_at(
                #[trigger] raw_comments(root, source)[k],
                node_at(root, way),
                source,
            ),
    decreases way.len(),
{
    let all = raw_comments(root, source);
    if way.len() == 0 {
        other_nodes_give_what_their_children_give(root, source, Seq::empty(), root, Seq::empty());
        assert(stands_at(all[0], root, source));
    } else {
        let child = root.children[way[0]];
        let rest = way.skip(1);
        let inner = raw_comments(child, source);
        every_comment_is_collected(child, source, rest);
        let k = choose|k: int|
            0 <= k < inner.len() && stands_at(#[trigger] inner[k], node_at(child, rest), source);
        lemma_child_is_collected(root, source, way[0]);
        let before = raw_comments_of(root.children.take(way[0]), source).len();
        assert(all[before + k] == inner[k]);
        assert(stands_at(all[before + k], node_at(root, way), source));
    }
}

/// Nothing else is taken: all that is collected stands at a node whose kind ends
/// in `comment`, below none that does.
pub proof fn only_comments_are_collected(root: SyntaxTree, source: Seq<char>, k: int) -> (way: Seq<int>)
    requires
        0 <= k < raw_comments(root, source).len(),
    ensures
        open_way(root, way),
        "comment"@.is_suffix_of(node_at(root, way).kind),
        stands_at(raw_comments(root, source)[k], node_at(root, way), source),
    decreases root,
{
    if "comment"@.is_suffix_of(root.kind) {
        other_nodes_give_what_their_children_give(root, source, Seq::empty(), root, Seq::empty());
        Seq::empty()
    } else {
        let i = lemma_child_that_gives(root.children, source, k);
        let child = root.children[i];
        let before = raw_comments_of(root.children.take(i), source).len();
        assert(decreases_to!(root.children => root.children[i]));
        let rest = only_comments_are_collected(child, source, k - before);
        let way = seq![i] + rest;
        assert(way.skip(1) =~= rest);
        lemma_child_is_collected(root, source, i);
        way
    }
}

/// The tree from which the comment at `k` comes.
proof fn lemma_child_that_gives(nodes: Seq<SyntaxTree>, source: Seq<char>, k: int) -> (i: int)
    requires
        0 <= k < raw_comments_of(nodes, source).len(),
    ensures
        0 <= i < nodes.len(),
        raw_comments_of(nodes.take(i), source).len() <= k,
        k < raw_comments_of(nodes.take(i), source).len() + raw_comments(nodes[i], source).len(),
        raw_comments_of(nodes, source)[k] == raw_comments(nodes[i], source)[k - raw_comments_of(
            nodes.take(i),
            source,
        ).len()],
    decreases nodes.len(),
{
    let outer = nodes.drop_last();
    let n = nodes.len() - 1;
    assert(nodes.take(n) =~= outer);
    if k >= raw_comments_of(outer, source).len() {
        n
    } else {
        let i = lemma_child_that_gives(outer, source, k);
        assert(outer.take(i) =~= nodes.take(i));
        assert(outer[i] == nodes[i]);
        i
    }
}

proof fn lemma_encoded_parts(a: Seq<char>, b: Seq<char>)
    ensures
        encode_utf8(a + b) == encode_utf8(a) + encode_utf8(b),
    decreases a.len(),
{
    if a.len() == 0 {
        assert(a + b =~= b);
        assert(encode_utf8(a) + encode_utf8(b) =~= encode_utf8(b));
    } else {
        assert((a + b).drop_first() =~= a.drop_first() + b);
        lemma_encoded_parts(a.drop_first(), b);
        assert(encode_utf8(a + b) =~= encode_utf8(a) + encode_utf8(b));
    }
}

/// The text at a node is what stands in the source between its two offsets,
/// counted in bytes, as far as the line ends behind it.
pub proof fn text_is_what_stands_between(a: Seq<char>, text: Seq<char>, ends: Seq<char>, b: Seq<char>)
    requires
        forall|i: int| 0 <= i < ends.len() ==> #[trigger] ends[i] == '\n' || ends[i] == '\r',
        text.len() > 0 ==> text.last() != '\n' && text.last() != '\r',
    ensures
        text_between(
            a + (text + ends) + b,
            encode_utf8(a).len() as int,
            (encode_utf8(a).len() + encode_utf8(text + ends).len()) as int,
        ) == text + ends,
        without_newlines(text + ends) == text,
{
    let body = text + ends;
    lemma_encoded_parts(a + body, b);
    lemma_encoded_parts(a, body);
    let bytes = encode_utf8(a + body + b);
    let lo = encode_utf8(a).len() as int;
    let hi = lo + encode_utf8(body).len();
    assert(bytes.subrange(lo, hi) =~= encode_utf8(body));
    vstd::utf8::encode_utf8_valid_utf8(body);
    vstd::utf8::encode_utf8_decode_utf8(body);
    lemma_without_ends(text, ends);
}

proof fn lemma_without_ends(text: Seq<char>, ends: Seq<char>)
    requires
        forall|i: int| 0 <= i < ends.len() ==> #[trigger] ends[i] == '\n' || ends[i] == '\r',
        text.len() > 0 ==> text.last() != '\n' && text.last() != '\r',
    ensures
        without_newlines(text + ends) == text,
    decreases ends.len(),
{
    if ends.len() == 0 {
        assert(text + ends =~= text);
    } else {
        assert(ends[ends.len() - 1] == '\n' || ends[ends.len() - 1] == '\r');
        assert((text + ends).drop_last() =~= text + ends.drop_last());
        assert forall|i: int| 0 <= i < ends.drop_last().len() implies #[trigger] ends.drop_last()[i] == '\n'
            || ends.drop_last()[i] == '\r' by {
            assert(ends.drop_last()[i] == ends[i]);
        }
        lemma_without_ends(text, ends.drop_last());
    }
}

/// The next comment is joined to the last block exactly when both are lines
/// behind a delimiter, the same one, in the same column, and the next stands on
/// the row after the last. Joined, it adds its line to the block and changes
/// nothing else of it; otherwise it is a block of its own, as it is.
pub proof fn lines_join_the_block_above(raw: Seq<RawView>, next: RawView)
    ensures
        merged(Seq::empty()) == Seq::<RawView>::empty(),
        ({
            let blocks = merged(raw);
            let after = merged(raw.push(next));
            let last = blocks.last();
            if blocks.len() > 0 && last.line_run && next.line_run && next.start_row == last.end_row + 1
                && next.start_col == last.start_col && line_delimiter(next.raw) == line_delimiter(last.raw) {
                &&& after.len() == blocks.len()
                &&& after.drop_last() == blocks.drop_last()
                &&& after.last().start_row == last.start_row
                &&& after.last().start_col == last.start_col
                &&& after.last().end_row == next.end_row
                &&& after.last().raw == last.raw + seq!['\n'] + next.raw
                &&& after.last().line_run
            } else {
                after == blocks.push(next)
            }
        }),
{
    assert(raw.push(next).drop_last() =~= raw);
    let blocks = merged(raw);
    let last = blocks.last();
    if blocks.len() > 0 && continues(last, next) {
        assert(last.raw.push('\n') + next.raw =~= last.raw + seq!['\n'] + next.raw);
        let after = blocks.drop_last().push(extended(last, next));
        assert(after.drop_last() =~= blocks.drop_last());
    }
}

/// Every block of which anything is left once it is cleaned is a comment, with
/// its row and column counted from one, in the order of the blocks; the others
/// are none.
pub proof fn blocks_with_prose_are_comments(blocks: Seq<RawView>, block: RawView)
    ensures
        block_comments(Seq::empty()) == Seq::<CommentView>::empty(),
        cleaned(block.raw).len() == 0 ==> block_comments(blocks.push(block)) == block_comments(blocks),
        cleaned(block.raw).len() > 0 ==> block_comments(blocks.push(block)) == block_comments(blocks).push(
            (CommentView {
                line: block.start_row + 1,
                column: block.start_col + 1,
                text: cleaned(block.raw),
            }),
        ),
{
    assert(blocks.push(block).drop_last() =~= blocks);
}

/// The comments of a source are the comments of its tree, merged and cleaned.
/// They are found wherever there is a grammar, a tree, and a number for the
/// position of each.
pub proof fn comments_are_found_where_there_is_a_tree(
    r: Result<Vec<Comment>, ExtractError>,
    grammar: tree_sitter::Language,
    source: Seq<char>,
)
    requires
        extracts(r, grammar, source),
    ensures
        r is Ok <==> {
            &&& grammar_loads(grammar)
            &&& parsed(grammar, source) is Some
            &&& forall|i: int|
                #![trigger raw_comments(parsed(grammar, source)->0, source)[i]]
                0 <= i < raw_comments(parsed(grammar, source)->0, source).len() ==> raw_comments(
                    parsed(grammar, source)->0,
                    source,
                )[i].start_row < usize::MAX && raw_comments(parsed(grammar, source)->0, source)[i].start_col
                    < usize::MAX
        },
        !grammar_loads(grammar) <==> r matches Err(ExtractError::Grammar(_)),
        grammar_loads(grammar) && parsed(grammar, source) is None <==> r matches Err(ExtractError::NoTree),
        r is Ok ==> comment_views(r->Ok_0@) == block_comments(
            merged(raw_comments(parsed(grammar, source)->0, source)),
        ),
{
}

/// Comments are seen by what they hold.
pub proof fn comments_say_their_fields(raw: Seq<RawComment>, comments: Seq<Comment>)
    ensures
        raw_views(raw).len() == raw.len(),
        forall|i: int|
            #![trigger raw_views(raw)[i]]
            0 <= i < raw.len() ==> {
                &&& raw_views(raw)[i].start_row == raw[i].start_row
                &&& raw_views(raw)[i].start_col == raw[i].start_col
                &&& raw_views(raw)[i].end_row == raw[i].end_row
                &&& raw_views(raw)[i].raw == raw[i].raw@
                &&& raw_views(raw)[i].line_run == raw[i].line_run
            },
        comment_views(comments).len() == comments.len(),
        forall|i: int|
            #![trigger comment_views(comments)[i]]
            0 <= i < comments.len() ==> {
                &&& comment_views(comments)[i].line == comments[i].line
                &&& comment_views(comments)[i].column == comments[i].column
                &&& comment_views(comments)[i].text == comments[i].text@
            },
{
}

/// A node is seen with its name, its place and all that is below it.
pub proof fn node_says_its_fields(node: SyntaxNode)
    ensures
        node.tree().kind == node.kind@,
        node.tree().start_byte == node.start_byte,
        node.tree().end_byte == node.end_byte,
        node.tree().start_row == node.start_row,
        node.tree().start_col == node.start_col,
        node.tree().end_row == node.end_row,
        node.tree().end_col == node.end_col,
        node.tree().children.len() == node.children@.len(),
        forall|i: int| 0 <= i < node.children@.len() ==> #[trigger] node.tree().children[i] == node.children@[i].tree(),
{
}

} // verus!
