//! From source text to syntax trees. The parsing is tree-sitter's; the
//! nodes that it finds are handed over as plain rows, and the tree is built
//! from the rows here.

use crate::error::IndexError;
use crate::grammar::Grammar;
use crate::syntax::{
    lemma_view, lemma_view_with_child, node_trees, with_last_child, SyntaxNode, SyntaxTree,
};
use crate::text::{copy_opt_text, opt_text};
use vstd::prelude::*;
use vstd::string::StringSliceAdditionalSpecFns;
use vstd::utf8::*;

verus! {

/// One node of a syntax tree as tree-sitter shows it: its depth below the
/// root, its kind, whether it stands for a named rule, the field of its
/// parent under which it hangs, and the bytes of the source that it spans,
/// from the first up to the one behind the last.
pub type RawNode = (usize, String, bool, Option<String>, usize, usize);

/// A row as plain values.
pub struct RawView {
    pub depth: nat,
    pub kind: Seq<char>,
    pub named: bool,
    pub field: Option<Seq<char>>,
    pub start: nat,
    pub end: nat,
}

/// The view of a row.
pub open spec fn raw_view(row: RawNode) -> RawView {
    RawView {
        depth: row.0 as nat,
        kind: row.1@,
        named: row.2,
        field: opt_text(row.3),
        start: row.4 as nat,
        end: row.5 as nat,
    }
}

/// The views of a sequence of rows.
pub open spec fn raw_views(rows: Seq<RawNode>) -> Seq<RawView> {
    Seq::new(rows.len(), |i: int| raw_view(rows[i]))
}

/// The views of rows that may be absent.
pub open spec fn opt_raw_views(rows: Option<Vec<RawNode>>) -> Option<Seq<RawView>> {
    match rows {
        Some(rows) => Some(raw_views(rows@)),
        None => None,
    }
}

/// The nodes of the syntax tree that tree-sitter finds for `code` in the
/// grammar of `language`, each before the nodes below it, siblings in
/// source order; `None` where tree-sitter gives no tree.
pub uninterp spec fn syntax_rows(code: Seq<char>, language: Grammar) -> Option<Seq<RawView>>;

/// What `Parser::set_language` of tree-sitter says of a language that it
/// does not take.
#[verifier::external_type_specification]
#[verifier::external_body]
pub struct ExLanguageError(tree_sitter::LanguageError);

/// The parse of tree-sitter, from plain values to plain values.
///
/// A `Parser::new` is given, by `Parser::set_language`, the language of the
/// grammar that the crate tree-sitter-rust, tree-sitter-python or
/// tree-sitter-javascript exports, and `Parser::parse` is run on the whole
/// of `code`. A cursor of `Tree::walk` then goes to every descendant of the
/// root in turn (`TreeCursor::goto_descendant`), and gives of each its
/// `depth`, its `field_name`, and of its `node` the `kind`, `is_named`,
/// `start_byte` and `end_byte`.
///
/// Two things are claimed. The language is taken: `set_language` refuses
/// one that was generated for a version of tree-sitter that the library
/// does not read, or that has no lexer, and each of the three grammars is
/// of a version that the library reads and has one. And the result is
/// named: the parse looks at the grammar and the text alone. Nothing is
/// claimed of the rows, nor that there are any.
#[verifier::external_body]
fn parse_rows(code: &str, language: Grammar) -> (rows: Result<
    Option<Vec<RawNode>>,
    tree_sitter::LanguageError,
>)
    ensures
        rows is Ok,
        rows matches Ok(found) ==> opt_raw_views(found) == syntax_rows(code@, language),
{
    let grammar = match language {
        Grammar::Rust => tree_sitter_rust::LANGUAGE,
        Grammar::Python => tree_sitter_python::LANGUAGE,
        Grammar::JavaScript => tree_sitter_javascript::LANGUAGE,
    };
    let mut parser = tree_sitter::Parser::new();
    parser.set_language(&grammar.into())?;
    let Some(tree) = parser.parse(code, None) else { return Ok(None) };
    let mut at = tree.walk();
    let row = |i| {
        at.goto_descendant(i);
        let node = at.node();
        (at.depth() as usize, node.kind().into(), node.is_named(), at.field_name().map(String::from), node.start_byte(), node.end_byte())
    };
    Ok(Some((0..tree.root_node().descendant_count()).map(row).collect()))
}

/// Whether the bytes of `code` from `start` up to `end` are a text of their
/// own: the range lies in the code and cuts no character.
pub open spec fn cuts_text(code: Seq<char>, start: int, end: int) -> bool {
    &&& 0 <= start <= end <= encode_utf8(code).len()
    &&& is_char_boundary(encode_utf8(code), end)
    &&& is_char_boundary(encode_utf8(code).subrange(0, end), start)
}

/// The text that the bytes of `code` from `start` up to `end` spell, where
/// they are a text of their own.
pub open spec fn text_at(code: Seq<char>, start: int, end: int) -> Option<Seq<char>> {
    if cuts_text(code, start, end) {
        Some(decode_utf8(encode_utf8(code).subrange(start, end)))
    } else {
        None
    }
}

/// The text that the bytes of `code` from `start` up to `end` spell, where
/// they are a text of their own.
pub fn slice_text(code: &str, start: usize, end: usize) -> (r: Option<String>)
    ensures
        opt_text(r) == text_at(code@, start as int, end as int),
        r matches Some(text) ==> encode_utf8(text@) == encode_utf8(code@).subrange(
            start as int,
            end as int,
        ),
{
    if start <= end && end <= code.as_bytes().len() && code.is_char_boundary(end) {
        let (head, _) = code.split_at(end);
        assert(head.spec_bytes() == code.spec_bytes().subrange(0, end as int));
        if head.is_char_boundary(start) {
            let (_, text) = head.split_at(start);
            assert(text.spec_bytes() =~= code.spec_bytes().subrange(start as int, end as int));
            proof {
                encode_utf8_decode_utf8(text@);
            }
            Some(text.to_owned())
        } else {
            None
        }
    } else {
        None
    }
}

/// The node of a row, with no nodes below it yet: its text is cut from
/// `code`. There is none where the row spans no text of its own.
pub open spec fn leaf_of(row: RawView, code: Seq<char>) -> Option<SyntaxTree> {
    match text_at(code, row.start as int, row.end as int) {
        Some(text) => Some(
            SyntaxTree {
                kind: row.kind,
                named: row.named,
                field: row.field,
                text,
                children: Seq::empty(),
            },
        ),
        None => None,
    }
}

/// The open nodes after the last of them is done: it becomes the last
/// child of the one before it.
pub open spec fn attach(open: Seq<SyntaxTree>) -> Seq<SyntaxTree> {
    open.drop_last().drop_last().push(with_last_child(open[open.len() - 2], open.last()))
}

/// The open nodes after those at `depth` and deeper are done, the root
/// excepted.
pub open spec fn close_to(open: Seq<SyntaxTree>, depth: nat) -> Seq<SyntaxTree>
    decreases open.len(),
{
    if open.len() >= 2 && open.len() > depth {
        close_to(attach(open), depth)
    } else {
        open
    }
}

/// Whether a row of depth `depth` may follow where `open` nodes are open:
/// the first row is the root, at depth 0; every other row hangs under one
/// of the open nodes.
pub open spec fn fits_under(depth: nat, open: nat) -> bool {
    if open == 0 {
        depth == 0
    } else {
        1 <= depth <= open
    }
}

/// The nodes that are open after the first `upto` rows, the root first,
/// each with the children that are done: a row closes the open nodes at
/// its depth and deeper, and opens its own. There are none where a row
/// does not fit, or spans no text of its own.
pub open spec fn open_after(rows: Seq<RawView>, upto: nat, code: Seq<char>) -> Option<
    Seq<SyntaxTree>,
>
    decreases upto,
{
    if upto == 0 || upto > rows.len() {
        Some(Seq::empty())
    } else {
        match open_after(rows, (upto - 1) as nat, code) {
            Some(open) => match leaf_of(rows[upto - 1], code) {
                Some(leaf) => if fits_under(rows[upto - 1].depth, open.len()) {
                    Some(close_to(open, rows[upto - 1].depth).push(leaf))
                } else {
                    None
                },
                None => None,
            },
            None => None,
        }
    }
}

/// The tree that the rows stand for: the first row is its root, and every
/// other row is the next child of the nearest row before it that is one
/// less deep.
pub open spec fn tree_of_rows(rows: Seq<RawView>, code: Seq<char>) -> Option<SyntaxTree> {
    match open_after(rows, rows.len(), code) {
        Some(open) => if open.len() > 0 {
            Some(close_to(open, 1)[0])
        } else {
            None
        },
        None => None,
    }
}

/// The syntax tree of `code` in the grammar of `language`: the tree of the
/// nodes that tree-sitter finds.
pub open spec fn syntax_of(code: Seq<char>, language: Grammar) -> Option<SyntaxTree> {
    match syntax_rows(code, language) {
        Some(rows) => tree_of_rows(rows, code),
        None => None,
    }
}

/// Closing leaves at least the root open, and as many nodes as the depth
/// says where that many were open.
pub proof fn lemma_close_to_len(open: Seq<SyntaxTree>, depth: nat)
    requires
        open.len() >= 1,
    ensures
        close_to(open, depth).len() >= 1,
        1 <= depth <= open.len() ==> close_to(open, depth).len() == depth,
    decreases open.len(),
{
    if open.len() >= 2 && open.len() > depth {
        lemma_close_to_len(attach(open), depth);
    }
}

/// Where the rows up to some row have no open nodes, the rows beyond it
/// have none either.
pub proof fn lemma_open_after_fails(rows: Seq<RawView>, upto: nat, more: nat, code: Seq<char>)
    requires
        upto <= more <= rows.len(),
        open_after(rows, upto, code) is None,
    ensures
        open_after(rows, more, code) is None,
    decreases more,
{
    if more > upto {
        lemma_open_after_fails(rows, upto, (more - 1) as nat, code);
    }
}

/// What one node of a tree shows: depth, kind, whether named, field, text.
pub type Shown = (nat, Seq<char>, bool, Option<Seq<char>>, Seq<char>);

/// What a row shows, its text cut from `code`.
pub open spec fn shown_by(row: RawView, code: Seq<char>) -> Shown {
    (
        row.depth,
        row.kind,
        row.named,
        row.field,
        match text_at(code, row.start as int, row.end as int) {
            Some(text) => text,
            None => Seq::empty(),
        },
    )
}

/// What the first `upto` rows show.
pub open spec fn rows_shown(rows: Seq<RawView>, upto: nat, code: Seq<char>) -> Seq<Shown>
    decreases upto,
{
    if upto == 0 || upto > rows.len() {
        Seq::empty()
    } else {
        rows_shown(rows, (upto - 1) as nat, code).push(shown_by(rows[upto - 1], code))
    }
}

/// What the nodes of a tree show, the root at `depth`: each node before the
/// nodes below it, siblings in order.
pub open spec fn tree_shown(tree: SyntaxTree, depth: nat) -> Seq<Shown>
    decreases tree, 0nat,
{
    seq![(depth, tree.kind, tree.named, tree.field, tree.text)] + trees_shown(
        tree.children,
        tree.children.len(),
        depth + 1,
    )
}

/// What the nodes of the first `upto` trees show, their roots at `depth`.
pub open spec fn trees_shown(trees: Seq<SyntaxTree>, upto: nat, depth: nat) -> Seq<Shown>
    decreases trees, upto,
{
    if upto == 0 || upto > trees.len() {
        Seq::empty()
    } else {
        trees_shown(trees, (upto - 1) as nat, depth) + tree_shown(trees[upto - 1], depth)
    }
}

/// What the first `upto` open nodes show, the first at depth 0 and each
/// one deeper than the one before it.
pub open spec fn open_shown(open: Seq<SyntaxTree>, upto: nat) -> Seq<Shown>
    decreases upto,
{
    if upto == 0 || upto > open.len() {
        Seq::empty()
    } else {
        open_shown(open, (upto - 1) as nat) + tree_shown(open[upto - 1], (upto - 1) as nat)
    }
}

/// What the first `upto` trees show depends on those trees alone.
pub proof fn lemma_trees_shown_prefix(a: Seq<SyntaxTree>, b: Seq<SyntaxTree>, upto: nat, depth: nat)
    requires
        upto <= a.len(),
        upto <= b.len(),
        forall|k: int| 0 <= k < upto ==> a[k] == b[k],
    ensures
        trees_shown(a, upto, depth) == trees_shown(b, upto, depth),
    decreases upto,
{
    if upto > 0 {
        lemma_trees_shown_prefix(a, b, (upto - 1) as nat, depth);
    }
}

/// What the first `upto` open nodes show depends on those nodes alone.
pub proof fn lemma_open_shown_prefix(a: Seq<SyntaxTree>, b: Seq<SyntaxTree>, upto: nat)
    requires
        upto <= a.len(),
        upto <= b.len(),
        forall|k: int| 0 <= k < upto ==> a[k] == b[k],
    ensures
        open_shown(a, upto) == open_shown(b, upto),
    decreases upto,
{
    if upto > 0 {
        lemma_open_shown_prefix(a, b, (upto - 1) as nat);
    }
}

/// A tree with one more child shows what it showed, and then what the child
/// shows one deeper.
pub proof fn lemma_shown_with_child(tree: SyntaxTree, child: SyntaxTree, depth: nat)
    ensures
        tree_shown(with_last_child(tree, child), depth) == tree_shown(tree, depth) + tree_shown(
            child,
            depth + 1,
        ),
{
    let grown = with_last_child(tree, child);
    let n = tree.children.len();
    lemma_trees_shown_prefix(tree.children, grown.children, n, depth + 1);
    assert(grown.children[n as int] == child);
    assert(tree_shown(grown, depth) =~= tree_shown(tree, depth) + tree_shown(child, depth + 1));
}

/// Closing the last open node changes nothing in what the open nodes show.
pub proof fn lemma_attach_shown(open: Seq<SyntaxTree>)
    requires
        open.len() >= 2,
    ensures
        open_shown(attach(open), attach(open).len()) == open_shown(open, open.len()),
{
    let n = open.len();
    let closed = attach(open);
    lemma_open_shown_prefix(open, closed, (n - 2) as nat);
    lemma_shown_with_child(open[n - 2], open[n - 1], (n - 2) as nat);
    assert(closed[n - 2] == with_last_child(open[n - 2], open[n - 1]));
    assert(open_shown(open, n) == open_shown(open, (n - 1) as nat) + tree_shown(
        open[n - 1],
        (n - 1) as nat,
    ));
    assert(open_shown(open, (n - 1) as nat) == open_shown(open, (n - 2) as nat) + tree_shown(
        open[n - 2],
        (n - 2) as nat,
    ));
    assert(open_shown(closed, (n - 1) as nat) == open_shown(closed, (n - 2) as nat) + tree_shown(
        closed[n - 2],
        (n - 2) as nat,
    ));
    assert(open_shown(closed, (n - 1) as nat) =~= open_shown(open, n));
}

/// Closing open nodes changes nothing in what they show.
pub proof fn lemma_close_to_shown(open: Seq<SyntaxTree>, depth: nat)
    ensures
        open_shown(close_to(open, depth), close_to(open, depth).len()) == open_shown(
            open,
            open.len(),
        ),
    decreases open.len(),
{
    if open.len() >= 2 && open.len() > depth {
        lemma_attach_shown(open);
        lemma_close_to_shown(attach(open), depth);
    }
}

/// The open nodes show what the rows showed that opened them.
pub proof fn lemma_open_after_shown(rows: Seq<RawView>, upto: nat, code: Seq<char>)
    requires
        upto <= rows.len(),
        open_after(rows, upto, code) is Some,
    ensures
        open_shown(open_after(rows, upto, code)->0, open_after(rows, upto, code)->0.len())
            == rows_shown(rows, upto, code),
        upto > 0 ==> open_after(rows, upto, code)->0.len() >= 1,
    decreases upto,
{
    if upto > 0 {
        lemma_open_after_shown(rows, (upto - 1) as nat, code);
        let before = open_after(rows, (upto - 1) as nat, code)->0;
        let row = rows[upto - 1];
        let leaf = leaf_of(row, code)->0;
        let closed = close_to(before, row.depth);
        let after = closed.push(leaf);
        lemma_close_to_shown(before, row.depth);
        if before.len() >= 1 {
            lemma_close_to_len(before, row.depth);
        }
        assert(closed.len() == row.depth);
        lemma_open_shown_prefix(closed, after, closed.len());
        assert(tree_shown(leaf, row.depth) =~= seq![shown_by(row, code)]);
        assert(open_shown(after, after.len()) =~= rows_shown(rows, upto, code));
    }
}

/// The tree of the rows shows what the rows show: its nodes, each before
/// the nodes below it and siblings in order, have the depths, kinds, fields
/// and texts of the rows, one node for each row.
pub proof fn lemma_tree_of_rows(rows: Seq<RawView>, code: Seq<char>)
    requires
        tree_of_rows(rows, code) is Some,
    ensures
        tree_shown(tree_of_rows(rows, code)->0, 0) == rows_shown(rows, rows.len(), code),
{
    lemma_open_after_shown(rows, rows.len(), code);
    let open = open_after(rows, rows.len(), code)->0;
    lemma_close_to_shown(open, 1);
    lemma_close_to_len(open, 1);
    let closed = close_to(open, 1);
    assert(open_shown(closed, 0) =~= Seq::<Shown>::empty());
    assert(open_shown(closed, 1) =~= tree_shown(closed[0], 0));
}

/// A view that may be absent.
pub open spec fn opt_tree(node: Option<SyntaxNode>) -> Option<SyntaxTree> {
    match node {
        Some(node) => Some(node@),
        None => None,
    }
}

/// Closes the open nodes at `depth` and deeper, the root excepted: each
/// becomes the last child of the one before it.
fn close_open(open: &mut Vec<SyntaxNode>, depth: usize)
    ensures
        node_trees(final(open)@) == close_to(node_trees(old(open)@), depth as nat),
{
    let ghost start = node_trees(open@);
    while open.len() >= 2 && open.len() > depth
        invariant
            close_to(node_trees(open@), depth as nat) == close_to(start, depth as nat),
        decreases open.len(),
    {
        let ghost before = node_trees(open@);
        let ghost nodes = open@;
        let done = open.pop().unwrap();
        let k = open.len() - 1;
        open[k].children.push(done);
        proof {
            lemma_view_with_child(&nodes[k as int], &open@[k as int], &done);
            assert(node_trees(open@) =~= attach(before));
        }
    }
}

/// The tree that the rows stand for, with the text of each node cut from
/// `code`.
pub fn build_tree(rows: &Vec<RawNode>, code: &str) -> (r: Option<SyntaxNode>)
    ensures
        opt_tree(r) == tree_of_rows(raw_views(rows@), code@),
{
    let ghost views = raw_views(rows@);
    let mut open: Vec<SyntaxNode> = Vec::new();
    let mut i: usize = 0;
    assert(node_trees(open@) =~= Seq::<SyntaxTree>::empty());
    while i < rows.len()
        invariant
            i <= rows@.len(),
            views == raw_views(rows@),
            open_after(views, i as nat, code@) == Some(node_trees(open@)),
        decreases rows.len() - i,
    {
        let row = &rows[i];
        assert(views[i as int] == raw_view(*row));
        let depth = row.0;
        let fits = if open.len() == 0 {
            depth == 0
        } else {
            1 <= depth && depth <= open.len()
        };
        let text = slice_text(code, row.4, row.5);
        if !fits || text.is_none() {
            proof {
                lemma_open_after_fails(views, (i + 1) as nat, views.len(), code@);
            }
            return None;
        }
        let ghost before = node_trees(open@);
        close_open(&mut open, depth);
        let ghost closed = node_trees(open@);
        let leaf = SyntaxNode {
            kind: row.1.clone(),
            named: row.2,
            field: copy_opt_text(&row.3),
            text: text.unwrap(),
            children: Vec::new(),
        };
        proof {
            lemma_view(&leaf);
            assert(leaf@.children =~= Seq::<SyntaxTree>::empty());
            assert(Some(leaf@) == leaf_of(views[i as int], code@));
        }
        open.push(leaf);
        assert(node_trees(open@) =~= closed.push(leaf@));
        i += 1;
    }
    if open.len() == 0 {
        return None;
    }
    proof {
        lemma_close_to_len(node_trees(open@), 1);
    }
    close_open(&mut open, 1);
    Some(open.remove(0))
}

/// The syntax tree of `code` in the grammar of `language`, as tree-sitter
/// finds it. Source that does not follow the grammar still has a tree,
/// with error nodes in it. Parsing fails where tree-sitter gives no tree,
/// or gives nodes that do not make one. A grammar that the parser does not
/// take would be `IndexError::GrammarInit`; each of the three is taken.
pub fn parse_source(code: &str, language: Grammar) -> (r: Result<SyntaxNode, IndexError>)
    ensures
        match syntax_of(code@, language) {
            Some(tree) => r matches Ok(root) && root@ == tree,
            None => r matches Err(e) && e == IndexError::Parse,
        },
{
    match parse_rows(code, language) {
        Ok(Some(rows)) => match build_tree(&rows, code) {
            Some(root) => Ok(root),
            None => Err(IndexError::Parse),
        },
        Ok(None) => Err(IndexError::Parse),
        Err(_) => Err(IndexError::GrammarInit),
    }
}

} // verus!
