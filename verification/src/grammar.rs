//! Syntax trees: what the tree-sitter parser says about a source text, as
//! plain values.

use vstd::prelude::*;

verus! {

/// The grammar of one language; opaque here.
#[verifier::external_type_specification]
#[verifier::external_body]
pub struct ExLanguage(tree_sitter::Language);

/// Why a grammar was refused; opaque here.
#[verifier::external_type_specification]
#[verifier::external_body]
pub struct ExLanguageError(tree_sitter::LanguageError);

/// A parser with at most one grammar; opaque here.
#[verifier::external_type_specification]
#[verifier::external_body]
pub struct ExParser(tree_sitter::Parser);

/// A syntax tree; opaque here.
#[verifier::external_type_specification]
#[verifier::external_body]
pub struct ExTree(tree_sitter::Tree);

/// A node of a syntax tree; opaque here.
#[verifier::external_type_specification]
#[verifier::external_body]
pub struct ExNode<'tree>(tree_sitter::Node<'tree>);

/// A node of a syntax tree with everything below it. Rows and columns are
/// zero-based, columns and offsets are counted in bytes.
pub struct SyntaxTree {
    pub kind: Seq<char>,
    pub start_byte: int,
    pub end_byte: int,
    pub start_row: int,
    pub start_col: int,
    pub end_row: int,
    pub end_col: int,
    pub children: Seq<SyntaxTree>,
}

/// The grammar that a parser has been given.
pub uninterp spec fn parser_grammar(parser: tree_sitter::Parser) -> Option<tree_sitter::Language>;

/// Whether a parser is as a new one but for its grammar: no ranges, callbacks or
/// other settings have been put on it, and it is in the middle of no parse.
pub uninterp spec fn otherwise_new(parser: tree_sitter::Parser) -> bool;

/// Whether a parser accepts a grammar: its version is one that this
/// tree-sitter reads, and it can be used for parsing.
pub uninterp spec fn grammar_loads(grammar: tree_sitter::Language) -> bool;

/// The tree that a parser with this grammar finds in a source text.
pub uninterp spec fn parsed(grammar: tree_sitter::Language, source: Seq<char>) -> Option<SyntaxTree>;

/// The nodes of a tree, from its root.
pub uninterp spec fn tree_nodes(tree: tree_sitter::Tree) -> SyntaxTree;

/// A node and the nodes below it.
pub uninterp spec fn node_tree(node: tree_sitter::Node<'_>) -> SyntaxTree;

/// `Parser::new` makes a parser that has no grammar yet.
pub assume_specification[ tree_sitter::Parser::new ]() -> (parser: tree_sitter::Parser)
    ensures
        parser_grammar(parser) is None,
        otherwise_new(parser),
;

/// `Parser::set_language` succeeds for a grammar that loads, whatever the
/// parser held before, and then the parser has that grammar. It changes no
/// other setting.
pub assume_specification[ tree_sitter::Parser::set_language ](
    parser: &mut tree_sitter::Parser,
    language: &tree_sitter::Language,
) -> (r: Result<(), tree_sitter::LanguageError>)
    ensures
        r is Ok <==> grammar_loads(*language),
        r is Ok ==> parser_grammar(*final(parser)) == Some(*language),
        otherwise_new(*old(parser)) ==> otherwise_new(*final(parser)),
;

/// `Parser::parse`, from scratch and without settings: it finds no tree where
/// the parser has no grammar, and else the tree that the grammar and the text
/// determine.
#[verifier::external_body]
fn parse_text(parser: &mut tree_sitter::Parser, source: &str) -> (r: Option<tree_sitter::Tree>)
    requires
        otherwise_new(*old(parser)),
    ensures
        match parser_grammar(*old(parser)) {
            None => r is None,
            Some(grammar) => match r {
                Some(tree) => parsed(grammar, source@) == Some(tree_nodes(tree)),
                None => parsed(grammar, source@) is None,
            },
        },
{
    parser.parse(source, None)
}

/// `Tree::root_node` is the node from which every node of the tree is reached.
pub assume_specification<'a>[ tree_sitter::Tree::root_node ](tree: &'a tree_sitter::Tree) -> (node:
    tree_sitter::Node<'a>)
    ensures
        node_tree(node) == tree_nodes(*tree),
;

/// `Node::kind` is the name that the grammar gives the node. Grammars name their
/// nodes in UTF-8, and the call relies on that.
pub assume_specification<'tree>[ tree_sitter::Node::<'tree>::kind ](
    node: &tree_sitter::Node<'tree>,
) -> (kind: &'tree str)
    ensures
        kind@ == node_tree(*node).kind,
;

/// `Node::start_byte` is the offset at which the node starts.
pub assume_specification<'tree>[ tree_sitter::Node::<'tree>::start_byte ](
    node: &tree_sitter::Node<'tree>,
) -> (offset: usize)
    ensures
        offset == node_tree(*node).start_byte,
;

/// `Node::end_byte` is the offset at which the node ends.
pub assume_specification<'tree>[ tree_sitter::Node::<'tree>::end_byte ](
    node: &tree_sitter::Node<'tree>,
) -> (offset: usize)
    ensures
        offset == node_tree(*node).end_byte,
;

/// `Node::start_position` is the row and the column at which the node starts.
#[verifier::external_body]
fn start_position(node: &tree_sitter::Node<'_>) -> (r: (usize, usize))
    ensures
        r.0 == node_tree(*node).start_row,
        r.1 == node_tree(*node).start_col,
{
    let point = node.start_position();
    (point.row, point.column)
}

/// `Node::end_position` is the row and the column at which the node ends.
#[verifier::external_body]
fn end_position(node: &tree_sitter::Node<'_>) -> (r: (usize, usize))
    ensures
        r.0 == node_tree(*node).end_row,
        r.1 == node_tree(*node).end_col,
{
    let point = node.end_position();
    (point.row, point.column)
}

/// `Node::children` walks the nodes directly below the node, in their order.
#[verifier::external_body]
fn children<'tree>(node: &tree_sitter::Node<'tree>) -> (r: Vec<tree_sitter::Node<'tree>>)
    ensures
        r@.len() == node_tree(*node).children.len(),
        forall|i: int| 0 <= i < r@.len() ==> node_tree(#[trigger] r@[i]) == node_tree(*node).children[i],
{
    node.children(&mut node.walk()).collect()
}

/// A node of a syntax tree with everything below it, as plain values.
#[derive(Debug)]
pub struct SyntaxNode {
    /// The name that the grammar gives the node.
    pub kind: String,
    /// The offsets between which the node lies, in bytes.
    pub start_byte: usize,
    pub end_byte: usize,
    /// Where the node starts and ends; zero-based, columns in bytes.
    pub start_row: usize,
    pub start_col: usize,
    pub end_row: usize,
    pub end_col: usize,
    /// The nodes directly below, in order.
    pub children: Vec<SyntaxNode>,
}

impl SyntaxNode {
    /// The tree that this node spans.
    pub open spec fn tree(self) -> SyntaxTree
        decreases self,
    {
        let kids = self.children@;
        SyntaxTree {
            kind: self.kind@,
            start_byte: self.start_byte as int,
            end_byte: self.end_byte as int,
            start_row: self.start_row as int,
            start_col: self.start_col as int,
            end_row: self.end_row as int,
            end_col: self.end_col as int,
            children: Seq::new(
                kids.len(),
                |i: int|
                    if 0 <= i < kids.len() {
                        kids[i].tree()
                    } else {
                        arbitrary()
                    },
            ),
        }
    }
}

/// Reads a node and everything below it.
fn read_node(node: &tree_sitter::Node<'_>) -> (r: SyntaxNode)
    ensures
        r.tree() == node_tree(*node),
    decreases node_tree(*node),
{
    let nodes = children(node);
    let mut kids: Vec<SyntaxNode> = Vec::new();
    let mut i: usize = 0;
    while i < nodes.len()
        invariant
            i <= nodes@.len(),
            kids@.len() == i,
            nodes@.len() == node_tree(*node).children.len(),
            forall|j: int|
                0 <= j < nodes@.len() ==> node_tree(#[trigger] nodes@[j]) == node_tree(*node).children[j],
            forall|j: int| 0 <= j < i ==> (#[trigger] kids@[j]).tree() == node_tree(*node).children[j],
        decreases nodes.len() - i,
    {
        kids.push(read_node(&nodes[i]));
        i += 1;
    }
    let (start_row, start_col): (usize, usize) = start_position(node);
    let (end_row, end_col): (usize, usize) = end_position(node);
    let r = SyntaxNode {
        kind: node.kind().to_owned(),
        start_byte: node.start_byte(),
        end_byte: node.end_byte(),
        start_row,
        start_col,
        end_row,
        end_col,
        children: kids,
    };
    assert(r.tree().children =~= node_tree(*node).children);
    r
}

/// Why a source text has no syntax tree.
#[derive(Debug)]
pub enum ParseError {
    /// The parser refused the grammar.
    Grammar(tree_sitter::LanguageError),
    /// The parser found no tree.
    NoTree,
}

/// Parses `source` with `grammar`.
pub fn parse_source(grammar: &tree_sitter::Language, source: &str) -> (r: Result<SyntaxNode, ParseError>)
    ensures
        match r {
            Err(ParseError::Grammar(_)) => !grammar_loads(*grammar),
            Err(ParseError::NoTree) => grammar_loads(*grammar) && parsed(*grammar, source@) is None,
            Ok(node) => grammar_loads(*grammar) && parsed(*grammar, source@) == Some(node.tree()),
        },
{
    let mut parser = tree_sitter::Parser::new();
    match parser.set_language(grammar) {
        Err(e) => Err(ParseError::Grammar(e)),
        Ok(()) => match parse_text(&mut parser, source) {
            None => Err(ParseError::NoTree),
            Some(tree) => Ok(read_node(&tree.root_node())),
        },
    }
}

} // verus!
