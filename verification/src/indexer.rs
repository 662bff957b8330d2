//! Symbol keys, and the folding of the blocks of many files into one call
//! stack and call graph.

use crate::block::{block_views, Block, BlockType, BlockView};
use crate::call_graph::{child_count, flatten, CallGraph};
use crate::call_stack::{with_child, CallStack, CallStackNode, NodeView};
use crate::config::{Config, MatchersView};
use crate::string_map::lemma_paired_same;
use crate::error::IndexError;
use crate::grammar::{grammar_for_extension, grammar_of_extension, settings_name, Grammar};
use crate::parser::{file_blocks, holds_import, parse_tree, tree_walk};
use crate::source::syntax_of;
use crate::source::parse_source;
use crate::syntax::SyntaxTree;
use crate::text::{
    after_last, copy_opt_text, extension_of, file_extension, lemma_after_last_join,
    lowercase_text, opt_text, texts, to_lowercase, trim_leading_slashes,
    without_leading_slashes,
};
use crate::utils::{is_supported_extension, supported};
use vstd::prelude::*;

verus! {

/// The text of a class name that may be absent: absent, it is empty.
pub open spec fn class_text(class_name: Option<Seq<char>>) -> Seq<char> {
    match class_name {
        Some(name) => name,
        None => Seq::empty(),
    }
}

/// The key of the function `function_name` of the class `class_name` in the
/// file `file_path`: the three parts with a dot between them. Where there is
/// no class its part is empty and the two dots meet.
pub open spec fn node_key_text(
    file_path: Seq<char>,
    class_name: Option<Seq<char>>,
    function_name: Seq<char>,
) -> Seq<char> {
    file_path + seq!['.'] + class_text(class_name) + seq!['.'] + function_name
}

/// The text of a string slice that may be absent.
pub open spec fn opt_str_text(o: Option<&str>) -> Option<Seq<char>> {
    match o {
        Some(s) => Some(s@),
        None => None,
    }
}

/// Keys are unique: two functions whose class and function names hold no
/// dot have the same key only if they agree in file path, class text and
/// function name.
pub proof fn lemma_node_key_injective(
    path1: Seq<char>,
    class1: Option<Seq<char>>,
    function1: Seq<char>,
    path2: Seq<char>,
    class2: Option<Seq<char>>,
    function2: Seq<char>,
)
    requires
        !class_text(class1).contains('.'),
        !class_text(class2).contains('.'),
        !function1.contains('.'),
        !function2.contains('.'),
        node_key_text(path1, class1, function1) == node_key_text(path2, class2, function2),
    ensures
        path1 == path2,
        class_text(class1) == class_text(class2),
        function1 == function2,
{
    let head1 = path1 + seq!['.'] + class_text(class1);
    let head2 = path2 + seq!['.'] + class_text(class2);
    let key1 = node_key_text(path1, class1, function1);
    let key2 = node_key_text(path2, class2, function2);
    lemma_after_last_join(head1, function1, '.');
    lemma_after_last_join(head2, function2, '.');
    assert(function1 == function2);
    assert(head1 =~= key1.take(key1.len() - function1.len() - 1));
    assert(head2 =~= key2.take(key2.len() - function2.len() - 1));
    lemma_after_last_join(path1, class_text(class1), '.');
    lemma_after_last_join(path2, class_text(class2), '.');
    assert(class_text(class1) == class_text(class2));
    assert(path1 =~= head1.take(head1.len() - class_text(class1).len() - 1));
    assert(path2 =~= head2.take(head2.len() - class_text(class2).len() - 1));
}

/// The key of a function, from the path of its file, the class that
/// encloses it, if one does, and its name.
pub fn generate_node_key(file_path: &str, class_name: Option<&str>, function_name: &str) -> (key:
    String)
    ensures
        key@ == node_key_text(file_path@, opt_str_text(class_name), function_name@),
{
    proof {
        reveal_strlit(".");
    }
    let mut key = String::from_str(file_path);
    key.append(".");
    assert(key@ =~= file_path@ + seq!['.']);
    match class_name {
        Some(class) => {
            key.append(class);
        },
        None => {
            assert(key@ =~= file_path@ + seq!['.'] + Seq::<char>::empty());
        },
    }
    key.append(".");
    key.append(function_name);
    assert(key@ =~= node_key_text(file_path@, opt_str_text(class_name), function_name@));
    key
}

/// Whether the file that `path` names is one that indexing looks at: its
/// extension, in lower case, is a supported one.
pub open spec fn supported_path(path: Seq<char>) -> bool {
    match file_extension(path) {
        Some(extension) => supported(lowercase_text(extension)),
        None => false,
    }
}

/// The grammar of the file that `path` names: the one registered for its
/// extension as it stands.
pub open spec fn grammar_of_path(path: Seq<char>) -> Option<Grammar> {
    match file_extension(path) {
        Some(extension) => grammar_of_extension(extension),
        None => None,
    }
}

/// Whether the file that `path` names is one that indexing looks at.
pub fn is_supported_file(path: &str) -> (r: bool)
    ensures
        r == supported_path(path@),
{
    match extension_of(path) {
        Some(extension) => {
            let lower = to_lowercase(extension.as_str());
            is_supported_extension(lower.as_str())
        },
        None => false,
    }
}

/// The grammar of the file that `path` names, if one is registered for it.
pub fn grammar_for_path(path: &str) -> (r: Option<Grammar>)
    ensures
        r == grammar_of_path(path@),
{
    match extension_of(path) {
        Some(extension) => grammar_for_extension(extension.as_str()),
        None => None,
    }
}

/// What the syntax tree of a file comes to: a failure where the tree holds
/// an import statement and there are no matchers to read it, else the
/// blocks that the walk of the tree gives.
pub open spec fn tree_outcome(
    tree: SyntaxTree,
    language: Grammar,
    module_name: Seq<char>,
    matchers: Option<MatchersView>,
) -> Result<Seq<BlockView>, IndexError> {
    if matchers is None && holds_import(tree, language) {
        Err(IndexError::MissingLanguageConfig)
    } else {
        Ok(file_blocks(tree_walk(tree, language, module_name, matchers)))
    }
}

/// What a file comes to when it is parsed: it is turned down where no
/// grammar is registered for its extension; parsing fails where its text
/// has no syntax tree; else it comes to what its syntax tree comes to.
pub open spec fn parse_outcome(
    file_path: Seq<char>,
    code: Seq<char>,
    module_name: Seq<char>,
    config: Config,
) -> Result<Seq<BlockView>, IndexError> {
    match grammar_of_path(file_path) {
        None => Err(IndexError::UnsupportedLanguage),
        Some(language) => match syntax_of(code, language) {
            None => Err(IndexError::Parse),
            Some(tree) => tree_outcome(
                tree,
                language,
                module_name,
                config.matchers_of(settings_name(language)),
            ),
        },
    }
}

/// The outcome of parsing a file, as plain values.
pub open spec fn outcome_view(outcome: Result<Vec<Block>, IndexError>) -> Result<
    Seq<BlockView>,
    IndexError,
> {
    match outcome {
        Ok(blocks) => Ok(block_views(blocks@)),
        Err(e) => Err(e),
    }
}

/// The blocks of the file `file_path`, whose text is `code`. `module_name`
/// is what stands for the file in the keys.
///
/// The file is turned down if no grammar is registered for its extension.
/// Its text is parsed by tree-sitter; the blocks are those that the walk of
/// its syntax tree gives.
pub fn parse_file(file_path: &str, code: &str, module_name: &str, config: &Config) -> (r: Result<
    Vec<Block>,
    IndexError,
>)
    ensures
        outcome_view(r) == parse_outcome(file_path@, code@, module_name@, *config),
{
    let language = match grammar_for_path(file_path) {
        Some(language) => language,
        None => {
            return Err(IndexError::UnsupportedLanguage);
        },
    };
    let tree = match parse_source(code, language) {
        Ok(tree) => tree,
        Err(e) => {
            return Err(e);
        },
    };
    parse_tree(&tree, language, module_name, config)
}

/// The blocks of one file.
#[derive(Debug)]
pub struct FileBlocks {
    /// The path of the file.
    pub path: String,
    /// Its blocks.
    pub blocks: Vec<Block>,
}

/// The blocks of one file as plain values.
pub struct FileBlocksView {
    pub path: Seq<char>,
    pub blocks: Seq<BlockView>,
}

impl View for FileBlocks {
    type V = FileBlocksView;

    open spec fn view(&self) -> FileBlocksView {
        FileBlocksView { path: self.path@, blocks: block_views(self.blocks@) }
    }
}

/// The views of a sequence of files.
pub open spec fn file_views(files: Seq<FileBlocks>) -> Seq<FileBlocksView> {
    Seq::new(files.len(), |i: int| files[i]@)
}

/// The name of the function of a block; empty where the block names none.
pub open spec fn block_function(block: BlockView) -> Seq<char> {
    match block.function_name {
        Some(name) => name,
        None => Seq::empty(),
    }
}

/// The key under which the function block `block` of the file `path` goes
/// into the call stack.
pub open spec fn block_key(path: Seq<char>, block: BlockView) -> Seq<char> {
    node_key_text(path, block.class_name, block_function(block))
}

/// The node that the function block `block` of the file `path` gets in the
/// call stack, before its calls are added.
pub open spec fn block_node(path: Seq<char>, block: BlockView) -> NodeView {
    NodeView {
        file_path: without_leading_slashes(path),
        class_name: block.class_name,
        function_name: block_function(block),
        children: Seq::empty(),
    }
}

/// `stack` after the first `upto` of `calls` have been added to the
/// children of the node under `key`.
pub open spec fn add_calls(
    stack: Map<Seq<char>, NodeView>,
    key: Seq<char>,
    calls: Seq<Seq<char>>,
    upto: nat,
) -> Map<Seq<char>, NodeView>
    decreases upto,
{
    if upto == 0 || upto > calls.len() {
        stack
    } else {
        let before = add_calls(stack, key, calls, (upto - 1) as nat);
        if before.contains_key(key) {
            before.insert(key, with_child(before[key], calls[upto - 1]))
        } else {
            before
        }
    }
}

/// `stack` after one block of the file `path`: a function block puts its
/// node under its key, in place of what was there, with its outgoing calls
/// as children; another block changes nothing.
pub open spec fn merge_block(stack: Map<Seq<char>, NodeView>, path: Seq<char>, block: BlockView) -> Map<
    Seq<char>,
    NodeView,
> {
    if block.block_type == BlockType::Function {
        add_calls(
            stack.insert(block_key(path, block), block_node(path, block)),
            block_key(path, block),
            block.outgoing_calls,
            block.outgoing_calls.len(),
        )
    } else {
        stack
    }
}

/// `stack` after the first `upto` blocks of the file `path`, in order.
pub open spec fn merge_blocks(
    stack: Map<Seq<char>, NodeView>,
    path: Seq<char>,
    blocks: Seq<BlockView>,
    upto: nat,
) -> Map<Seq<char>, NodeView>
    decreases upto,
{
    if upto == 0 || upto > blocks.len() {
        stack
    } else {
        merge_block(merge_blocks(stack, path, blocks, (upto - 1) as nat), path, blocks[upto - 1])
    }
}

/// `stack` after the blocks of the first `upto` files, in order.
pub open spec fn merge_files(
    stack: Map<Seq<char>, NodeView>,
    files: Seq<FileBlocksView>,
    upto: nat,
) -> Map<Seq<char>, NodeView>
    decreases upto,
{
    if upto == 0 || upto > files.len() {
        stack
    } else {
        let file = files[upto - 1];
        merge_blocks(
            merge_files(stack, files, (upto - 1) as nat),
            file.path,
            file.blocks,
            file.blocks.len(),
        )
    }
}

/// The blocks of the first `upto` files, one file after the other.
pub open spec fn all_blocks(files: Seq<FileBlocksView>, upto: nat) -> Seq<BlockView>
    decreases upto,
{
    if upto == 0 || upto > files.len() {
        Seq::empty()
    } else {
        all_blocks(files, (upto - 1) as nat) + files[upto - 1].blocks
    }
}

/// The node of a function block with its calls as children.
pub open spec fn full_node(path: Seq<char>, block: BlockView) -> NodeView {
    NodeView { children: block.outgoing_calls, ..block_node(path, block) }
}

/// Adding calls to the node under a key leaves that node with the calls
/// behind its children, and every other node as it was.
pub proof fn lemma_add_calls(
    stack: Map<Seq<char>, NodeView>,
    key: Seq<char>,
    calls: Seq<Seq<char>>,
    upto: nat,
)
    requires
        stack.contains_key(key),
        upto <= calls.len(),
    ensures
        add_calls(stack, key, calls, upto) == stack.insert(
            key,
            NodeView { children: stack[key].children + calls.take(upto as int), ..stack[key] },
        ),
    decreases upto,
{
    if upto == 0 {
        assert(stack[key].children + calls.take(0) =~= stack[key].children);
        assert(stack.insert(key, stack[key]) =~= stack);
    } else {
        lemma_add_calls(stack, key, calls, (upto - 1) as nat);
        let before = add_calls(stack, key, calls, (upto - 1) as nat);
        assert((stack[key].children + calls.take(upto - 1)).push(calls[upto - 1]) =~= stack[key].children
            + calls.take(upto as int));
        assert(before.insert(key, with_child(before[key], calls[upto - 1])) =~= stack.insert(
            key,
            NodeView {
                children: stack[key].children + calls.take(upto as int),
                ..stack[key]
            },
        ));
    }
}

/// A function block puts its node, with its calls as children, under its
/// key; another block changes nothing.
pub proof fn lemma_merge_block(stack: Map<Seq<char>, NodeView>, path: Seq<char>, block: BlockView)
    ensures
        merge_block(stack, path, block) == if block.block_type == BlockType::Function {
            stack.insert(block_key(path, block), full_node(path, block))
        } else {
            stack
        },
{
    if block.block_type == BlockType::Function {
        let key = block_key(path, block);
        let placed = stack.insert(key, block_node(path, block));
        lemma_add_calls(placed, key, block.outgoing_calls, block.outgoing_calls.len());
        let calls = block.outgoing_calls;
        assert(calls.take(calls.len() as int) =~= calls);
        assert(Seq::<Seq<char>>::empty() + calls =~= calls);
        assert(placed.insert(key, full_node(path, block)) =~= stack.insert(
            key,
            full_node(path, block),
        ));
    }
}

/// What the first `upto` blocks of a file put into a call stack, whatever
/// the call stack held: the nodes of the file under their keys.
pub open spec fn blocks_delta(path: Seq<char>, blocks: Seq<BlockView>, upto: nat) -> Map<
    Seq<char>,
    NodeView,
> {
    merge_blocks(Map::empty(), path, blocks, upto)
}

/// What a file puts into a call stack.
pub open spec fn file_delta(file: FileBlocksView) -> Map<Seq<char>, NodeView> {
    blocks_delta(file.path, file.blocks, file.blocks.len())
}

/// Merging a file lays its nodes over the call stack: the keys of the file
/// get the nodes of the file, and every other key keeps its node.
pub proof fn lemma_merge_blocks_lays_over(
    stack: Map<Seq<char>, NodeView>,
    path: Seq<char>,
    blocks: Seq<BlockView>,
    upto: nat,
)
    requires
        upto <= blocks.len(),
    ensures
        merge_blocks(stack, path, blocks, upto) == stack.union_prefer_right(
            blocks_delta(path, blocks, upto),
        ),
    decreases upto,
{
    if upto == 0 {
        assert(stack.union_prefer_right(Map::<Seq<char>, NodeView>::empty()) =~= stack);
    } else {
        lemma_merge_blocks_lays_over(stack, path, blocks, (upto - 1) as nat);
        let block = blocks[upto - 1];
        let before = merge_blocks(stack, path, blocks, (upto - 1) as nat);
        let delta = blocks_delta(path, blocks, (upto - 1) as nat);
        lemma_merge_block(before, path, block);
        lemma_merge_block(delta, path, block);
        assert(merge_blocks(stack, path, blocks, upto) =~= stack.union_prefer_right(
            blocks_delta(path, blocks, upto),
        ));
    }
}

/// Whether no two of the files have a key in common.
pub open spec fn keys_apart(files: Seq<FileBlocksView>) -> bool {
    forall|i: int, j: int, key: Seq<char>|
        0 <= i < j < files.len() ==> !(#[trigger] file_delta(files[i]).contains_key(key)
            && #[trigger] file_delta(files[j]).contains_key(key))
}

/// Whether two sequences hold the same files.
pub open spec fn same_files(a: Seq<FileBlocksView>, b: Seq<FileBlocksView>) -> bool {
    &&& forall|i: int| 0 <= i < a.len() ==> b.contains(#[trigger] a[i])
    &&& forall|j: int| 0 <= j < b.len() ==> a.contains(#[trigger] b[j])
}

/// In the call stack of files that have no key in common, a key has a node
/// exactly if one of the files has it, and then it has the node of that
/// file.
pub proof fn lemma_merge_files_at(files: Seq<FileBlocksView>, upto: nat, key: Seq<char>)
    requires
        keys_apart(files),
        upto <= files.len(),
    ensures
        merge_files(Map::empty(), files, upto).contains_key(key) <==> exists|i: int|
            0 <= i < upto && #[trigger] file_delta(files[i]).contains_key(key),
        forall|i: int|
            0 <= i < upto && #[trigger] file_delta(files[i]).contains_key(key) ==> merge_files(
                Map::empty(),
                files,
                upto,
            )[key] == file_delta(files[i])[key],
    decreases upto,
{
    if upto > 0 {
        lemma_merge_files_at(files, (upto - 1) as nat, key);
        let file = files[upto - 1];
        let before = merge_files(Map::empty(), files, (upto - 1) as nat);
        lemma_merge_blocks_lays_over(before, file.path, file.blocks, file.blocks.len());
        let after = merge_files(Map::empty(), files, upto);
        assert(after == before.union_prefer_right(file_delta(file)));
        if file_delta(files[upto - 1]).contains_key(key) {
            assert(after.contains_key(key));
        }
        if before.contains_key(key) {
            let i = choose|i: int|
                0 <= i < upto - 1 && #[trigger] file_delta(files[i]).contains_key(key);
            assert(file_delta(files[i]).contains_key(key));
        }
    }
}

/// The order of the files does not matter: two runs over the same files,
/// none of which shares a key with another, give the same call stack.
pub proof fn lemma_order_of_files(a: Seq<FileBlocksView>, b: Seq<FileBlocksView>)
    requires
        keys_apart(a),
        keys_apart(b),
        same_files(a, b),
    ensures
        merge_files(Map::empty(), a, a.len()) == merge_files(Map::empty(), b, b.len()),
{
    let left = merge_files(Map::empty(), a, a.len());
    let right = merge_files(Map::empty(), b, b.len());
    assert forall|key: Seq<char>| #[trigger]
        left.dom().contains(key) == right.dom().contains(key) && (left.dom().contains(key)
            ==> left[key] == right[key]) by {
        lemma_merge_files_at(a, a.len(), key);
        lemma_merge_files_at(b, b.len(), key);
        if left.contains_key(key) {
            let i = choose|i: int|
                0 <= i < a.len() && #[trigger] file_delta(a[i]).contains_key(key);
            assert(b.contains(a[i]));
            let j = choose|j: int| 0 <= j < b.len() && b[j] == a[i];
            assert(file_delta(b[j]).contains_key(key));
        }
        if right.contains_key(key) {
            let j = choose|j: int|
                0 <= j < b.len() && #[trigger] file_delta(b[j]).contains_key(key);
            assert(a.contains(b[j]));
            let i = choose|i: int| 0 <= i < a.len() && a[i] == b[j];
            assert(file_delta(a[i]).contains_key(key));
        }
    }
    assert(left =~= right);
}

/// A key that a file has is the key of one of its blocks.
pub proof fn lemma_delta_keys(path: Seq<char>, blocks: Seq<BlockView>, upto: nat, key: Seq<char>)
    requires
        upto <= blocks.len(),
        blocks_delta(path, blocks, upto).contains_key(key),
    ensures
        exists|i: int| 0 <= i < upto && key == #[trigger] block_key(path, blocks[i]),
    decreases upto,
{
    if upto > 0 {
        let before = blocks_delta(path, blocks, (upto - 1) as nat);
        lemma_merge_block(before, path, blocks[upto - 1]);
        if before.contains_key(key) {
            lemma_delta_keys(path, blocks, (upto - 1) as nat, key);
        } else {
            assert(key == block_key(path, blocks[upto - 1]));
        }
    }
}

/// Whether no class or function name of the blocks of a file holds a dot.
pub open spec fn plain_names(file: FileBlocksView) -> bool {
    forall|i: int|
        0 <= i < file.blocks.len() ==> !class_text((#[trigger] file.blocks[i]).class_name).contains(
            '.',
        ) && !block_function(file.blocks[i]).contains('.')
}

/// Files with different paths have no key in common, as long as no class
/// or function name holds a dot.
pub proof fn lemma_paths_keep_apart(files: Seq<FileBlocksView>)
    requires
        forall|i: int, j: int|
            0 <= i < j < files.len() ==> (#[trigger] files[i]).path != (#[trigger] files[j]).path,
        forall|i: int| 0 <= i < files.len() ==> plain_names(#[trigger] files[i]),
    ensures
        keys_apart(files),
{
    assert forall|i: int, j: int, key: Seq<char>| 0 <= i < j < files.len() implies !(
    #[trigger] file_delta(files[i]).contains_key(key) && #[trigger] file_delta(
        files[j],
    ).contains_key(key)) by {
        if file_delta(files[i]).contains_key(key) && file_delta(files[j]).contains_key(key) {
            let a = files[i];
            let b = files[j];
            assert(plain_names(a));
            assert(plain_names(b));
            lemma_delta_keys(a.path, a.blocks, a.blocks.len(), key);
            lemma_delta_keys(b.path, b.blocks, b.blocks.len(), key);
            let x = choose|x: int|
                0 <= x < a.blocks.len() && key == #[trigger] block_key(a.path, a.blocks[x]);
            let y = choose|y: int|
                0 <= y < b.blocks.len() && key == #[trigger] block_key(b.path, b.blocks[y]);
            lemma_node_key_injective(
                a.path,
                a.blocks[x].class_name,
                block_function(a.blocks[x]),
                b.path,
                b.blocks[y].class_name,
                block_function(b.blocks[y]),
            );
        }
    }
}

/// The blocks of the first files are the same whatever files follow.
pub proof fn lemma_all_blocks_prefix(x: Seq<FileBlocksView>, y: Seq<FileBlocksView>, upto: nat)
    requires
        upto <= x.len(),
    ensures
        all_blocks(x + y, upto) == all_blocks(x, upto),
    decreases upto,
{
    if upto > 0 {
        lemma_all_blocks_prefix(x, y, (upto - 1) as nat);
        assert((x + y)[upto - 1] == x[upto - 1]);
    }
}

/// The blocks of files that stand one behind the other are the blocks of
/// the first and then those of the second.
pub proof fn lemma_all_blocks_join(x: Seq<FileBlocksView>, y: Seq<FileBlocksView>, upto: nat)
    requires
        upto <= y.len(),
    ensures
        all_blocks(x + y, x.len() + upto) == all_blocks(x, x.len()) + all_blocks(y, upto),
    decreases upto,
{
    if upto == 0 {
        lemma_all_blocks_prefix(x, y, x.len());
        assert(all_blocks(x, x.len()) + Seq::<BlockView>::empty() =~= all_blocks(x, x.len()));
    } else {
        lemma_all_blocks_join(x, y, (upto - 1) as nat);
        assert((x + y)[x.len() + upto - 1] == y[upto - 1]);
        assert(all_blocks(x + y, x.len() + upto) =~= all_blocks(x, x.len()) + all_blocks(y, upto));
    }
}

/// The blocks of a code base are those of one of its files together with
/// those of the others.
pub proof fn lemma_all_blocks_without(files: Seq<FileBlocksView>, at: int)
    requires
        0 <= at < files.len(),
    ensures
        all_blocks(files, files.len()).to_multiset() == all_blocks(
            files.remove(at),
            files.remove(at).len(),
        ).to_multiset().add(files[at].blocks.to_multiset()),
{
    let head = files.take(at);
    let one = seq![files[at]];
    let tail = files.skip(at + 1);
    assert(files =~= head + one + tail);
    assert(files.remove(at) =~= head + tail);
    lemma_all_blocks_join(head + one, tail, tail.len());
    lemma_all_blocks_join(head, one, 1);
    lemma_all_blocks_join(head, tail, tail.len());
    let h = all_blocks(head, head.len());
    let t = all_blocks(tail, tail.len());
    let o = files[at].blocks;
    assert(all_blocks(one, 0) =~= Seq::<BlockView>::empty());
    assert(all_blocks(one, 1) =~= o);
    assert(all_blocks(files, files.len()) == h + o + t);
    assert(all_blocks(files.remove(at), files.remove(at).len()) == h + t);
    vstd::seq_lib::lemma_multiset_commutative(h + o, t);
    vstd::seq_lib::lemma_multiset_commutative(h, o);
    vstd::seq_lib::lemma_multiset_commutative(h, t);
    assert((h + o + t).to_multiset() =~= (h + t).to_multiset().add(o.to_multiset()));
}

/// The order of the files does not matter to the blocks: the same files in
/// another order give the same blocks, each as often, in another order.
pub proof fn lemma_blocks_of_files(a: Seq<FileBlocksView>, b: Seq<FileBlocksView>)
    requires
        a.to_multiset() == b.to_multiset(),
    ensures
        all_blocks(a, a.len()).to_multiset() == all_blocks(b, b.len()).to_multiset(),
    decreases a.len(),
{
    vstd::seq_lib::to_multiset_len(a);
    vstd::seq_lib::to_multiset_len(b);
    if a.len() > 0 {
        let last = a.len() - 1;
        vstd::seq_lib::to_multiset_contains(a, a[last]);
        vstd::seq_lib::to_multiset_contains(b, a[last]);
        assert(a.contains(a[last]));
        let at = choose|at: int| 0 <= at < b.len() && b[at] == a[last];
        vstd::seq_lib::to_multiset_remove(a, last);
        vstd::seq_lib::to_multiset_remove(b, at);
        lemma_blocks_of_files(a.remove(last), b.remove(at));
        lemma_all_blocks_without(a, last);
        lemma_all_blocks_without(b, at);
    }
}

/// Puts the function blocks of the file `path` into the call stack.
pub fn merge_file(call_stack: &mut CallStack, path: &str, blocks: &Vec<Block>)
    ensures
        final(call_stack)@ == merge_blocks(
            old(call_stack)@,
            path@,
            block_views(blocks@),
            blocks@.len(),
        ),
{
    let ghost start = call_stack@;
    let ghost views = block_views(blocks@);
    let mut i: usize = 0;
    while i < blocks.len()
        invariant
            i <= blocks@.len(),
            views == block_views(blocks@),
            call_stack@ == merge_blocks(start, path@, views, i as nat),
        decreases blocks.len() - i,
    {
        let block = &blocks[i];
        assert(views[i as int] == block@);
        match block.block_type {
            BlockType::Function => {
                let function_name = match &block.function_name {
                    Some(name) => name.clone(),
                    None => String::new(),
                };
                let class_name = copy_opt_text(&block.class_name);
                let node_key = match &class_name {
                    Some(class) => generate_node_key(
                        path,
                        Some(class.as_str()),
                        function_name.as_str(),
                    ),
                    None => generate_node_key(path, None, function_name.as_str()),
                };
                let node = CallStackNode {
                    file_path: trim_leading_slashes(path).to_owned(),
                    class_name,
                    function_name,
                    children: Vec::new(),
                };
                assert(node@.children =~= Seq::<Seq<char>>::empty());
                assert(node@ == block_node(path@, block@));
                assert(node_key@ == block_key(path@, block@));
                call_stack.add_node(node_key.clone(), node);
                let ghost placed = call_stack@;
                let mut j: usize = 0;
                while j < block.outgoing_calls.len()
                    invariant
                        j <= block.outgoing_calls@.len(),
                        call_stack@ == add_calls(
                            placed,
                            node_key@,
                            texts(block.outgoing_calls@),
                            j as nat,
                        ),
                    decreases block.outgoing_calls.len() - j,
                {
                    call_stack.add_child(node_key.as_str(), block.outgoing_calls[j].as_str());
                    j += 1;
                }
            },
            BlockType::NonFunction => {},
        }
        i += 1;
    }
}

/// The call stack of a code base, from the blocks of its files.
pub fn build_call_stack(files: &Vec<FileBlocks>) -> (call_stack: CallStack)
    ensures
        call_stack@ == merge_files(Map::empty(), file_views(files@), files@.len()),
{
    let mut call_stack = CallStack::new();
    let ghost views = file_views(files@);
    let mut i: usize = 0;
    while i < files.len()
        invariant
            i <= files@.len(),
            views == file_views(files@),
            call_stack@ == merge_files(Map::empty(), views, i as nat),
        decreases files.len() - i,
    {
        assert(views[i as int] == files@[i as int]@);
        merge_file(&mut call_stack, files[i].path.as_str(), &files[i].blocks);
        i += 1;
    }
    call_stack
}

/// The blocks of all files, one file after the other.
pub fn collect_blocks(files: &Vec<FileBlocks>) -> (blocks: Vec<Block>)
    ensures
        block_views(blocks@) == all_blocks(file_views(files@), files@.len()),
{
    let mut blocks: Vec<Block> = Vec::new();
    let ghost views = file_views(files@);
    let mut i: usize = 0;
    assert(block_views(blocks@) =~= all_blocks(views, 0));
    while i < files.len()
        invariant
            i <= files@.len(),
            views == file_views(files@),
            block_views(blocks@) == all_blocks(views, i as nat),
        decreases files.len() - i,
    {
        let file = &files[i];
        assert(views[i as int] == file@);
        let ghost before = block_views(blocks@);
        let mut j: usize = 0;
        while j < file.blocks.len()
            invariant
                j <= file.blocks@.len(),
                block_views(blocks@) == before + block_views(file.blocks@).take(j as int),
            decreases file.blocks.len() - j,
        {
            let ghost have = block_views(blocks@);
            let copy = file.blocks[j].duplicate();
            blocks.push(copy);
            assert(block_views(blocks@) =~= have.push(copy@));
            assert(block_views(blocks@) =~= before + block_views(file.blocks@).take(j + 1));
            j += 1;
        }
        assert(block_views(file.blocks@).take(j as int) =~= block_views(file.blocks@));
        i += 1;
    }
    blocks
}

/// One file of the code base, as whoever walked the directory found it.
#[derive(Debug)]
pub struct SourceFile {
    /// The path of the file.
    pub path: String,
    /// The text of the file; `None` where it could not be read.
    pub content: Option<String>,
}

/// A file that was left out of the index, and why.
#[derive(Debug)]
pub struct SkippedFile {
    /// The path of the file.
    pub path: String,
    /// Why it was left out.
    pub error: IndexError,
}

/// What became of one file: its blocks, or why it has none.
#[derive(Debug)]
pub struct FileOutcome {
    /// The path of the file.
    pub path: String,
    /// Its blocks, or the error.
    pub outcome: Result<Vec<Block>, IndexError>,
}

/// What indexing a code base gives.
#[derive(Debug)]
pub struct Index {
    /// The blocks of all files that were indexed, one file after the other.
    pub blocks: Vec<Block>,
    /// The functions of those files with the calls that they make.
    pub call_stack: CallStack,
    /// The call graph of the call stack.
    pub call_graph: CallGraph,
    /// The files that were left out, in the order in which they were met.
    pub skipped: Vec<SkippedFile>,
}

/// What became of one file, as plain values.
pub struct OutcomeView {
    pub path: Seq<char>,
    pub outcome: Result<Seq<BlockView>, IndexError>,
}

impl View for FileOutcome {
    type V = OutcomeView;

    open spec fn view(&self) -> OutcomeView {
        OutcomeView { path: self.path@, outcome: outcome_view(self.outcome) }
    }
}

/// The views of a sequence of outcomes.
pub open spec fn outcome_views(outcomes: Seq<FileOutcome>) -> Seq<OutcomeView> {
    Seq::new(outcomes.len(), |i: int| outcomes[i]@)
}

/// The paths and errors of a sequence of skipped files.
pub open spec fn skipped_views(skipped: Seq<SkippedFile>) -> Seq<(Seq<char>, IndexError)> {
    Seq::new(skipped.len(), |i: int| (skipped[i].path@, skipped[i].error))
}

/// The first error among the first `upto` outcomes that ends the run.
pub open spec fn first_fatal(outcomes: Seq<OutcomeView>, upto: nat) -> Option<IndexError>
    decreases upto,
{
    if upto == 0 || upto > outcomes.len() {
        None
    } else {
        match first_fatal(outcomes, (upto - 1) as nat) {
            Some(e) => Some(e),
            None => match outcomes[upto - 1].outcome {
                Err(e) => if e.fatal() {
                    Some(e)
                } else {
                    None
                },
                Ok(_) => None,
            },
        }
    }
}

/// The files among the first `upto` that have blocks, in order.
pub open spec fn kept(outcomes: Seq<OutcomeView>, upto: nat) -> Seq<FileBlocksView>
    decreases upto,
{
    if upto == 0 || upto > outcomes.len() {
        Seq::empty()
    } else {
        match outcomes[upto - 1].outcome {
            Ok(blocks) => kept(outcomes, (upto - 1) as nat).push(
                FileBlocksView { path: outcomes[upto - 1].path, blocks },
            ),
            Err(_) => kept(outcomes, (upto - 1) as nat),
        }
    }
}

/// The files among the first `upto` that have none, each with its error,
/// in order.
pub open spec fn left_out(outcomes: Seq<OutcomeView>, upto: nat) -> Seq<(Seq<char>, IndexError)>
    decreases upto,
{
    if upto == 0 || upto > outcomes.len() {
        Seq::empty()
    } else {
        match outcomes[upto - 1].outcome {
            Ok(_) => left_out(outcomes, (upto - 1) as nat),
            Err(e) => left_out(outcomes, (upto - 1) as nat).push((outcomes[upto - 1].path, e)),
        }
    }
}

/// Whether `graph` is the flattening of `stack`: the same nodes under the
/// same keys, and one edge for each child of each node.
pub open spec fn is_flattening(graph: CallGraph, stack: CallStack) -> bool {
    &&& graph.keys() == stack.keys()
    &&& graph.nodes() == stack.nodes()
    &&& graph.node_map() == stack@
    &&& graph.edges() == flatten(stack.keys(), stack.nodes(), stack.keys().len())
    &&& graph.edges().len() == child_count(stack.nodes(), stack.nodes().len())
}

/// Whether `r` is what the outcomes of the files come to: the first error
/// that ends a run, if there is one; else the index of the files that have
/// blocks, with the others listed as skipped.
pub open spec fn gathered(outcomes: Seq<OutcomeView>, r: Result<Index, IndexError>) -> bool {
    match first_fatal(outcomes, outcomes.len()) {
        Some(e) => r matches Err(x) && x == e,
        None => {
            let files = kept(outcomes, outcomes.len());
            &&& r matches Ok(index)
            &&& block_views(index.blocks@) == all_blocks(files, files.len())
            &&& index.call_stack.wf()
            &&& index.call_stack@ == merge_files(Map::empty(), files, files.len())
            &&& is_flattening(index.call_graph, index.call_stack)
            &&& skipped_views(index.skipped@) == left_out(outcomes, outcomes.len())
        },
    }
}

/// What a file of the code base comes to: it is skipped where its
/// extension is not supported or it could not be read, else it comes to
/// what parsing it comes to, with its path standing for it in the keys.
pub open spec fn index_outcome(path: Seq<char>, content: Option<Seq<char>>, config: Config) -> Result<
    Seq<BlockView>,
    IndexError,
> {
    if !supported_path(path) {
        Err(IndexError::UnsupportedLanguage)
    } else {
        match content {
            None => Err(IndexError::FileRead),
            Some(code) => parse_outcome(path, code, path, config),
        }
    }
}

/// What each file of the code base comes to, in the order of the files.
pub open spec fn file_outcomes(files: Seq<SourceFile>, config: Config) -> Seq<OutcomeView> {
    Seq::new(
        files.len(),
        |i: int|
            OutcomeView {
                path: files[i].path@,
                outcome: index_outcome(files[i].path@, opt_text(files[i].content), config),
            },
    )
}

/// Call stacks that hold the same nodes under the same keys have the same
/// call graph: the same keys, the same nodes and the same edges in the
/// same order.
pub proof fn lemma_same_stack_same_graph(
    stack1: CallStack,
    graph1: CallGraph,
    stack2: CallStack,
    graph2: CallGraph,
)
    requires
        stack1.wf(),
        stack2.wf(),
        stack1@ == stack2@,
        is_flattening(graph1, stack1),
        is_flattening(graph2, stack2),
    ensures
        graph1.keys() == graph2.keys(),
        graph1.nodes() == graph2.nodes(),
        graph1.edges() == graph2.edges(),
{
    stack1.lemma_shape();
    stack2.lemma_shape();
    lemma_paired_same(stack1.keys(), stack1.nodes(), stack2.keys(), stack2.nodes());
}

/// A file with blocks as the outcome that it came from.
pub open spec fn outcome_of(file: FileBlocksView) -> OutcomeView {
    OutcomeView { path: file.path, outcome: Ok(file.blocks) }
}

/// A file without blocks as the outcome that it came from.
pub open spec fn outcome_left(file: (Seq<char>, IndexError)) -> OutcomeView {
    OutcomeView { path: file.0, outcome: Err(file.1) }
}

/// A file is kept as often as its outcome stands among the outcomes, and
/// left out as often as its outcome stands among them.
pub proof fn lemma_kept_counts(outcomes: Seq<OutcomeView>, upto: nat)
    requires
        upto <= outcomes.len(),
    ensures
        forall|file: FileBlocksView| #[trigger]
            kept(outcomes, upto).to_multiset().count(file) == outcomes.take(
                upto as int,
            ).to_multiset().count(outcome_of(file)),
        forall|file: (Seq<char>, IndexError)| #[trigger]
            left_out(outcomes, upto).to_multiset().count(file) == outcomes.take(
                upto as int,
            ).to_multiset().count(outcome_left(file)),
    decreases upto,
{
    if upto == 0 {
        assert(outcomes.take(0) =~= Seq::<OutcomeView>::empty());
        assert(kept(outcomes, 0) =~= Seq::<FileBlocksView>::empty());
        assert(left_out(outcomes, 0) =~= Seq::<(Seq<char>, IndexError)>::empty());
        vstd::seq_lib::to_multiset_len(outcomes.take(0));
        vstd::seq_lib::to_multiset_len(kept(outcomes, 0));
        vstd::seq_lib::to_multiset_len(left_out(outcomes, 0));
    } else {
        lemma_kept_counts(outcomes, (upto - 1) as nat);
        let last = outcomes[upto - 1];
        let before = outcomes.take(upto - 1);
        assert(outcomes.take(upto as int) =~= before.push(last));
        vstd::seq_lib::to_multiset_build(before, last);
        match last.outcome {
            Ok(blocks) => {
                let file = FileBlocksView { path: last.path, blocks };
                vstd::seq_lib::to_multiset_build(kept(outcomes, (upto - 1) as nat), file);
                assert(outcome_of(file) == last);
            },
            Err(e) => {
                vstd::seq_lib::to_multiset_build(
                    left_out(outcomes, (upto - 1) as nat),
                    (last.path, e),
                );
                assert(outcome_left((last.path, e)) == last);
            },
        }
        assert forall|file: FileBlocksView| #[trigger]
            kept(outcomes, upto).to_multiset().count(file) == outcomes.take(
                upto as int,
            ).to_multiset().count(outcome_of(file)) by {
            assert(kept(outcomes, (upto - 1) as nat).to_multiset().count(file)
                == before.to_multiset().count(outcome_of(file)));
            if outcome_of(file) == last {
                assert(file == FileBlocksView { path: last.path, blocks: last.outcome->Ok_0 });
            }
        }
        assert forall|file: (Seq<char>, IndexError)| #[trigger]
            left_out(outcomes, upto).to_multiset().count(file) == outcomes.take(
                upto as int,
            ).to_multiset().count(outcome_left(file)) by {
            assert(left_out(outcomes, (upto - 1) as nat).to_multiset().count(file)
                == before.to_multiset().count(outcome_left(file)));
            if outcome_left(file) == last {
                assert(file == (last.path, last.outcome->Err_0));
            }
        }
    }
}

/// A run ends with an error exactly if one of the outcomes is an error
/// that ends a run.
pub proof fn lemma_first_fatal_is_some(outcomes: Seq<OutcomeView>, upto: nat)
    requires
        upto <= outcomes.len(),
    ensures
        first_fatal(outcomes, upto) is Some <==> exists|i: int|
            0 <= i < upto && (#[trigger] outcomes[i]).outcome is Err
                && outcomes[i].outcome->Err_0.fatal(),
    decreases upto,
{
    if upto > 0 {
        lemma_first_fatal_is_some(outcomes, (upto - 1) as nat);
        if first_fatal(outcomes, upto) is Some {
            if first_fatal(outcomes, (upto - 1) as nat) is Some {
                let i = choose|i: int|
                    0 <= i < upto - 1 && (#[trigger] outcomes[i]).outcome is Err
                        && outcomes[i].outcome->Err_0.fatal();
                assert(outcomes[i].outcome is Err);
            } else {
                assert(outcomes[upto - 1].outcome is Err);
            }
        }
    }
}

/// Two runs over the same files in another order agree. Both end with an
/// error, or neither does; and where neither does and no two files have a
/// key in common, they give the same call stack, the same call graph, the
/// same blocks, each as often, and leave the same files out.
pub proof fn lemma_order_of_run(
    a: Seq<OutcomeView>,
    b: Seq<OutcomeView>,
    one: Result<Index, IndexError>,
    other: Result<Index, IndexError>,
)
    requires
        a.to_multiset() == b.to_multiset(),
        gathered(a, one),
        gathered(b, other),
        keys_apart(kept(a, a.len())),
        keys_apart(kept(b, b.len())),
    ensures
        one is Ok <==> other is Ok,
        one is Ok ==> {
            &&& one->Ok_0.call_stack@ == other->Ok_0.call_stack@
            &&& one->Ok_0.call_graph.keys() == other->Ok_0.call_graph.keys()
            &&& one->Ok_0.call_graph.nodes() == other->Ok_0.call_graph.nodes()
            &&& one->Ok_0.call_graph.edges() == other->Ok_0.call_graph.edges()
            &&& block_views(one->Ok_0.blocks@).to_multiset() == block_views(
                other->Ok_0.blocks@,
            ).to_multiset()
            &&& skipped_views(one->Ok_0.skipped@).to_multiset() == skipped_views(
                other->Ok_0.skipped@,
            ).to_multiset()
        },
{
    lemma_first_fatal_is_some(a, a.len());
    lemma_first_fatal_is_some(b, b.len());
    if first_fatal(a, a.len()) is Some {
        let i = choose|i: int|
            0 <= i < a.len() && (#[trigger] a[i]).outcome is Err && a[i].outcome->Err_0.fatal();
        vstd::seq_lib::to_multiset_contains(a, a[i]);
        vstd::seq_lib::to_multiset_contains(b, a[i]);
        assert(a.contains(a[i]));
        let j = choose|j: int| 0 <= j < b.len() && b[j] == a[i];
        assert(b[j].outcome is Err);
    }
    if first_fatal(b, b.len()) is Some {
        let j = choose|j: int|
            0 <= j < b.len() && (#[trigger] b[j]).outcome is Err && b[j].outcome->Err_0.fatal();
        vstd::seq_lib::to_multiset_contains(b, b[j]);
        vstd::seq_lib::to_multiset_contains(a, b[j]);
        assert(b.contains(b[j]));
        let i = choose|i: int| 0 <= i < a.len() && a[i] == b[j];
        assert(a[i].outcome is Err);
    }
    if one is Ok {
        let x = kept(a, a.len());
        let y = kept(b, b.len());
        lemma_kept_counts(a, a.len());
        lemma_kept_counts(b, b.len());
        assert(a.take(a.len() as int) =~= a);
        assert(b.take(b.len() as int) =~= b);
        assert(x.to_multiset() =~= y.to_multiset());
        assert(left_out(a, a.len()).to_multiset() =~= left_out(b, b.len()).to_multiset());
        assert forall|i: int| 0 <= i < x.len() implies y.contains(#[trigger] x[i]) by {
            vstd::seq_lib::to_multiset_contains(x, x[i]);
            vstd::seq_lib::to_multiset_contains(y, x[i]);
            assert(x.contains(x[i]));
        }
        assert forall|j: int| 0 <= j < y.len() implies x.contains(#[trigger] y[j]) by {
            vstd::seq_lib::to_multiset_contains(x, y[j]);
            vstd::seq_lib::to_multiset_contains(y, y[j]);
            assert(y.contains(y[j]));
        }
        lemma_order_of_files(x, y);
        lemma_blocks_of_files(x, y);
        lemma_same_stack_same_graph(
            one->Ok_0.call_stack,
            one->Ok_0.call_graph,
            other->Ok_0.call_stack,
            other->Ok_0.call_graph,
        );
    }
}

/// The blocks, the call stack and the call graph of a code base whose
/// files have been turned into blocks.
pub fn index_blocks(files: &Vec<FileBlocks>) -> (index: (Vec<Block>, CallStack, CallGraph))
    ensures
        block_views(index.0@) == all_blocks(file_views(files@), files@.len()),
        index.1.wf(),
        index.1@ == merge_files(Map::empty(), file_views(files@), files@.len()),
        is_flattening(index.2, index.1),
{
    let blocks = collect_blocks(files);
    let call_stack = build_call_stack(files);
    let call_graph = call_stack.to_call_graph();
    (blocks, call_stack, call_graph)
}

/// A copy of a list of blocks.
fn copy_blocks(blocks: &Vec<Block>) -> (copy: Vec<Block>)
    ensures
        block_views(copy@) == block_views(blocks@),
{
    let mut copy: Vec<Block> = Vec::new();
    let mut i: usize = 0;
    while i < blocks.len()
        invariant
            i <= blocks@.len(),
            copy@.len() == i,
            forall|k: int| 0 <= k < i ==> (#[trigger] copy@[k])@ == blocks@[k]@,
        decreases blocks.len() - i,
    {
        copy.push(blocks[i].duplicate());
        i += 1;
    }
    assert(block_views(copy@) =~= block_views(blocks@));
    copy
}

/// What the outcomes of the files of a code base come to: the first error
/// that ends a run, or the index of the files that have blocks.
pub fn gather(outcomes: &Vec<FileOutcome>) -> (r: Result<Index, IndexError>)
    ensures
        gathered(outcome_views(outcomes@), r),
{
    let ghost views = outcome_views(outcomes@);
    let mut files: Vec<FileBlocks> = Vec::new();
    let mut skipped: Vec<SkippedFile> = Vec::new();
    let mut i: usize = 0;
    assert(file_views(files@) =~= kept(views, 0));
    assert(skipped_views(skipped@) =~= left_out(views, 0));
    while i < outcomes.len()
        invariant
            i <= outcomes@.len(),
            views == outcome_views(outcomes@),
            first_fatal(views, i as nat) is None,
            file_views(files@) == kept(views, i as nat),
            skipped_views(skipped@) == left_out(views, i as nat),
        decreases outcomes.len() - i,
    {
        let file = &outcomes[i];
        assert(views[i as int] == file@);
        match &file.outcome {
            Ok(blocks) => {
                let ghost before = file_views(files@);
                let entry = FileBlocks { path: file.path.clone(), blocks: copy_blocks(blocks) };
                files.push(entry);
                assert(file_views(files@) =~= before.push(entry@));
            },
            Err(error) => {
                if error.is_fatal() {
                    proof {
                        lemma_first_fatal_stays(views, (i + 1) as nat, views.len());
                    }
                    return Err(*error);
                }
                let ghost before = skipped_views(skipped@);
                skipped.push(SkippedFile { path: file.path.clone(), error: *error });
                assert(skipped_views(skipped@) =~= before.push((file.path@, *error)));
            },
        }
        i += 1;
    }
    let (blocks, call_stack, call_graph) = index_blocks(&files);
    Ok(Index { blocks, call_stack, call_graph, skipped })
}

/// The first error that ends the run stays the first when more outcomes are
/// looked at.
pub proof fn lemma_first_fatal_stays(outcomes: Seq<OutcomeView>, upto: nat, more: nat)
    requires
        upto <= more <= outcomes.len(),
        first_fatal(outcomes, upto) is Some,
    ensures
        first_fatal(outcomes, more) == first_fatal(outcomes, upto),
    decreases more,
{
    if more > upto {
        lemma_first_fatal_stays(outcomes, upto, (more - 1) as nat);
    }
}

/// What becomes of one file of the code base.
pub fn index_file(config: &Config, file: &SourceFile) -> (r: Result<Vec<Block>, IndexError>)
    ensures
        outcome_view(r) == index_outcome(file.path@, opt_text(file.content), *config),
{
    let path = file.path.as_str();
    if !is_supported_file(path) {
        Err(IndexError::UnsupportedLanguage)
    } else {
        match &file.content {
            Some(code) => parse_file(path, code.as_str(), path, config),
            None => Err(IndexError::FileRead),
        }
    }
}

/// Indexes the files of a code base.
///
/// The files are taken in order. A file is skipped where its extension is
/// not supported, where it could not be read, where no grammar is
/// registered for it and where its text could not be parsed. An error that
/// ends the run is handed back at once; the files behind it are not looked
/// at. The result is what `gather` makes of what each file comes to.
pub fn index_directory(config: &Config, files: &Vec<SourceFile>) -> (r: Result<Index, IndexError>)
    ensures
        gathered(file_outcomes(files@, *config), r),
{
    let ghost all = file_outcomes(files@, *config);
    let mut outcomes: Vec<FileOutcome> = Vec::new();
    let mut i: usize = 0;
    let mut ended = false;
    assert(outcome_views(outcomes@) =~= all.take(0));
    while i < files.len() && !ended
        invariant
            i <= files@.len(),
            all == file_outcomes(files@, *config),
            outcome_views(outcomes@) == all.take(i as int),
            ended == (first_fatal(all, i as nat) is Some),
        decreases files.len() - i,
    {
        let file = &files[i];
        let outcome = index_file(config, file);
        ended = match &outcome {
            Ok(_) => false,
            Err(error) => error.is_fatal(),
        };
        let ghost before = outcome_views(outcomes@);
        let entry = FileOutcome { path: file.path.clone(), outcome };
        outcomes.push(entry);
        proof {
            assert(entry@ == all[i as int]);
            assert(outcome_views(outcomes@) =~= before.push(entry@));
            assert(outcome_views(outcomes@) =~= all.take(i + 1));
        }
        i += 1;
    }
    let r = gather(&outcomes);
    proof {
        let views = outcome_views(outcomes@);
        lemma_first_fatal_prefix(views, all, i as nat);
        if ended {
            lemma_first_fatal_stays(all, i as nat, all.len());
        }
        if i == files@.len() {
            assert(all.take(i as int) =~= all);
        }
        assert(gathered(all, r));
    }
    r
}

/// The first error that ends the run is one that ends a run.
pub proof fn lemma_first_fatal_ends(outcomes: Seq<OutcomeView>, upto: nat)
    ensures
        first_fatal(outcomes, upto) matches Some(e) ==> e.fatal(),
    decreases upto,
{
    if upto > 0 {
        lemma_first_fatal_ends(outcomes, (upto - 1) as nat);
    }
}

/// The first error that ends the run among the first `upto` outcomes
/// depends on those outcomes alone.
pub proof fn lemma_first_fatal_prefix(a: Seq<OutcomeView>, b: Seq<OutcomeView>, upto: nat)
    requires
        upto <= a.len(),
        upto <= b.len(),
        forall|k: int| 0 <= k < upto ==> a[k] == b[k],
    ensures
        first_fatal(a, upto) == first_fatal(b, upto),
    decreases upto,
{
    if upto > 0 {
        lemma_first_fatal_prefix(a, b, (upto - 1) as nat);
    }
}

} // verus!
