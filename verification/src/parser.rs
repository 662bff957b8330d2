//! The traversal engine: it walks the syntax tree of one file and gives the
//! blocks of the file, each function with the calls that it makes.

use crate::block::{block_views, Block, BlockType, BlockView};
use crate::calls::{
    add_import, bind_all, find_calls, import_table, outgoing_calls, ImportTarget, TargetView,
};
use crate::config::{Config, MatchersView};
use crate::error::IndexError;
use crate::grammar::{
    class_kind, field_text, function_kind, function_name_of, get_function_name, import_kind,
    is_class_definition, is_function_node, is_import_statement, language_name, settings_name,
    text_under, Grammar,
};
use crate::imports::{binding_views, import_bindings, resolve_imports, ImportBinding};
use crate::indexer::{
    class_text, generate_node_key, lemma_node_key_injective, node_key_text, opt_str_text,
};
use crate::string_map::StringMap;
use crate::syntax::{lemma_view, SyntaxNode, SyntaxTree};
use crate::text::{opt_text, texts};
use vstd::prelude::*;

verus! {

/// What a walk has gathered so far.
pub struct Walk {
    /// The function blocks, in the order in which their nodes were met.
    pub blocks: Seq<BlockView>,
    /// The texts of the nodes that stand for no named rule, in the order in
    /// which they were met.
    pub residue: Seq<Seq<char>>,
    /// What the imported names of the file mean.
    pub imports: Map<Seq<char>, TargetView>,
    /// Whether an import statement was met without matchers to read it.
    pub missing_config: bool,
}

/// Nothing gathered yet.
pub open spec fn empty_walk() -> Walk {
    Walk { blocks: Seq::empty(), residue: Seq::empty(), imports: Map::empty(), missing_config: false }
}

/// The name given to a function whose node names none.
pub open spec fn unnamed_function() -> Seq<char> {
    "UnnamedFunction"@
}

/// The name of the function that `node` defines.
pub open spec fn block_function_name(node: SyntaxTree) -> Seq<char> {
    match function_name_of(node) {
        Some(name) => name,
        None => unnamed_function(),
    }
}

/// The block of the function that `node` defines, met inside the class
/// `class_name` while the file's imports were `imports`.
pub open spec fn function_block(
    node: SyntaxTree,
    class_name: Option<Seq<char>>,
    language: Grammar,
    module_name: Seq<char>,
    imports: Map<Seq<char>, TargetView>,
) -> BlockView {
    BlockView {
        node_key: node_key_text(module_name, class_name, block_function_name(node)),
        block_type: BlockType::Function,
        content: node.text,
        function_name: Some(block_function_name(node)),
        class_name: class_name,
        outgoing_calls: outgoing_calls(node, language, module_name, imports),
    }
}

/// Blocks are told apart by their keys: two function blocks have the same
/// key only if their functions agree in file, class text and name, as long
/// as no class or function name holds a dot.
pub proof fn lemma_block_keys_apart(
    node1: SyntaxTree,
    class1: Option<Seq<char>>,
    module1: Seq<char>,
    imports1: Map<Seq<char>, TargetView>,
    node2: SyntaxTree,
    class2: Option<Seq<char>>,
    module2: Seq<char>,
    imports2: Map<Seq<char>, TargetView>,
    language: Grammar,
)
    requires
        !class_text(class1).contains('.'),
        !class_text(class2).contains('.'),
        !block_function_name(node1).contains('.'),
        !block_function_name(node2).contains('.'),
        function_block(node1, class1, language, module1, imports1).node_key == function_block(
            node2,
            class2,
            language,
            module2,
            imports2,
        ).node_key,
    ensures
        module1 == module2,
        class_text(class1) == class_text(class2),
        block_function_name(node1) == block_function_name(node2),
{
    lemma_node_key_injective(
        module1,
        class1,
        block_function_name(node1),
        module2,
        class2,
        block_function_name(node2),
    );
}

/// The walk after the import statement `node`: with matchers, the imports
/// that they read join the table; without, the walk is marked.
pub open spec fn walk_import(node: SyntaxTree, matchers: Option<MatchersView>, walk: Walk) -> Walk {
    match matchers {
        Some(m) => Walk {
            imports: bind_all(
                walk.imports,
                import_bindings(node, m),
                import_bindings(node, m).len(),
            ),
            ..walk
        },
        None => Walk { missing_config: true, ..walk },
    }
}

/// The class that is around the children of `node`: the class that `node`
/// defines, where it is a class definition that names its class; else the
/// class that is around `node` itself.
pub open spec fn inner_class(
    node: SyntaxTree,
    class_name: Option<Seq<char>>,
    language: Grammar,
) -> Option<Seq<char>> {
    if !import_kind(node.kind, language) && class_kind(node.kind, language) && field_text(
        node,
        "name"@,
    ) is Some {
        field_text(node, "name"@)
    } else {
        class_name
    }
}

/// The walk after `node` itself, before the nodes below it. An import
/// statement adds its imports. A function definition gives a block. A node
/// that is neither, nor a class definition, and stands for no named rule
/// adds its text to the residue.
pub open spec fn walk_at(
    node: SyntaxTree,
    class_name: Option<Seq<char>>,
    language: Grammar,
    module_name: Seq<char>,
    matchers: Option<MatchersView>,
    walk: Walk,
) -> Walk {
    if import_kind(node.kind, language) {
        walk_import(node, matchers, walk)
    } else if class_kind(node.kind, language) {
        walk
    } else if function_kind(node.kind, language) {
        Walk {
            blocks: walk.blocks.push(
                function_block(node, class_name, language, module_name, walk.imports),
            ),
            ..walk
        }
    } else if !node.named {
        Walk { residue: walk.residue.push(node.text), ..walk }
    } else {
        walk
    }
}

/// The walk after `node` and all nodes below it: the node itself first,
/// then its children in source order, each node once. The class around the
/// children is the innermost class definition above them.
pub open spec fn walk_node(
    node: SyntaxTree,
    class_name: Option<Seq<char>>,
    language: Grammar,
    module_name: Seq<char>,
    matchers: Option<MatchersView>,
    walk: Walk,
) -> Walk
    decreases node, node.children.len() + 1,
{
    walk_children(
        node,
        node.children.len(),
        inner_class(node, class_name, language),
        language,
        module_name,
        matchers,
        walk_at(node, class_name, language, module_name, matchers, walk),
    )
}

/// The walk after the first `upto` children of `node`, in source order.
pub open spec fn walk_children(
    node: SyntaxTree,
    upto: nat,
    class_name: Option<Seq<char>>,
    language: Grammar,
    module_name: Seq<char>,
    matchers: Option<MatchersView>,
    walk: Walk,
) -> Walk
    decreases node, upto,
{
    if upto == 0 || upto > node.children.len() {
        walk
    } else {
        walk_node(
            node.children[upto - 1],
            class_name,
            language,
            module_name,
            matchers,
            walk_children(
                node,
                (upto - 1) as nat,
                class_name,
                language,
                module_name,
                matchers,
                walk,
            ),
        )
    }
}

/// Whether `node` or a node below it is an import statement.
pub open spec fn holds_import(node: SyntaxTree, language: Grammar) -> bool
    decreases node, node.children.len() + 1,
{
    import_kind(node.kind, language) || holds_import_below(node, node.children.len(), language)
}

/// Whether one of the first `upto` children of `node`, or a node below
/// one, is an import statement.
pub open spec fn holds_import_below(node: SyntaxTree, upto: nat, language: Grammar) -> bool
    decreases node, upto,
{
    if upto == 0 || upto > node.children.len() {
        false
    } else {
        holds_import_below(node, (upto - 1) as nat, language) || holds_import(
            node.children[upto - 1],
            language,
        )
    }
}

/// A walk is marked exactly if it was marked before, or if there are no
/// matchers and the tree holds an import statement.
pub proof fn lemma_walk_marks(
    node: SyntaxTree,
    class_name: Option<Seq<char>>,
    language: Grammar,
    module_name: Seq<char>,
    matchers: Option<MatchersView>,
    walk: Walk,
)
    ensures
        walk_node(node, class_name, language, module_name, matchers, walk).missing_config == (
        walk.missing_config || (matchers is None && holds_import(node, language))),
    decreases node, node.children.len() + 1,
{
    lemma_walk_children_marks(
        node,
        node.children.len(),
        inner_class(node, class_name, language),
        language,
        module_name,
        matchers,
        walk_at(node, class_name, language, module_name, matchers, walk),
    );
}

/// `lemma_walk_marks` for the first `upto` children of a node.
pub proof fn lemma_walk_children_marks(
    node: SyntaxTree,
    upto: nat,
    class_name: Option<Seq<char>>,
    language: Grammar,
    module_name: Seq<char>,
    matchers: Option<MatchersView>,
    walk: Walk,
)
    ensures
        walk_children(
            node,
            upto,
            class_name,
            language,
            module_name,
            matchers,
            walk,
        ).missing_config == (walk.missing_config || (matchers is None && holds_import_below(
            node,
            upto,
            language,
        ))),
    decreases node, upto,
{
    if upto == 0 || upto > node.children.len() {
    } else {
        lemma_walk_children_marks(
            node,
            (upto - 1) as nat,
            class_name,
            language,
            module_name,
            matchers,
            walk,
        );
        lemma_walk_marks(
            node.children[upto - 1],
            class_name,
            language,
            module_name,
            matchers,
            walk_children(
                node,
                (upto - 1) as nat,
                class_name,
                language,
                module_name,
                matchers,
                walk,
            ),
        );
    }
}

/// Whether the walk turns `node` into a function block.
pub open spec fn gives_block(node: SyntaxTree, language: Grammar) -> bool {
    !import_kind(node.kind, language) && !class_kind(node.kind, language) && function_kind(
        node.kind,
        language,
    )
}

/// Whether the walk adds the text of `node` to the residue.
pub open spec fn gives_residue(node: SyntaxTree, language: Grammar) -> bool {
    !import_kind(node.kind, language) && !class_kind(node.kind, language) && !function_kind(
        node.kind,
        language,
    ) && !node.named
}

/// The number of nodes of a tree that give a function block.
pub open spec fn functions_in(node: SyntaxTree, language: Grammar) -> nat
    decreases node, node.children.len() + 1,
{
    functions_below(node, node.children.len(), language) + if gives_block(node, language) {
        1nat
    } else {
        0nat
    }
}

/// The number of nodes that give a function block among the first `upto`
/// children of `node` and the nodes below them.
pub open spec fn functions_below(node: SyntaxTree, upto: nat, language: Grammar) -> nat
    decreases node, upto,
{
    if upto == 0 || upto > node.children.len() {
        0
    } else {
        functions_below(node, (upto - 1) as nat, language) + functions_in(
            node.children[upto - 1],
            language,
        )
    }
}

/// The number of nodes of a tree whose text joins the residue.
pub open spec fn tokens_in(node: SyntaxTree, language: Grammar) -> nat
    decreases node, node.children.len() + 1,
{
    tokens_below(node, node.children.len(), language) + if gives_residue(node, language) {
        1nat
    } else {
        0nat
    }
}

/// The number of nodes whose text joins the residue among the first `upto`
/// children of `node` and the nodes below them.
pub open spec fn tokens_below(node: SyntaxTree, upto: nat, language: Grammar) -> nat
    decreases node, upto,
{
    if upto == 0 || upto > node.children.len() {
        0
    } else {
        tokens_below(node, (upto - 1) as nat, language) + tokens_in(
            node.children[upto - 1],
            language,
        )
    }
}

/// The walk keeps what was gathered before it, and adds one block for each
/// function definition of the tree and one text for each of its nodes that
/// stand for no named rule: each node is met once.
pub proof fn lemma_walk_adds(
    node: SyntaxTree,
    class_name: Option<Seq<char>>,
    language: Grammar,
    module_name: Seq<char>,
    matchers: Option<MatchersView>,
    walk: Walk,
)
    ensures
        ({
            let after = walk_node(node, class_name, language, module_name, matchers, walk);
            &&& after.blocks.len() == walk.blocks.len() + functions_in(node, language)
            &&& after.blocks.take(walk.blocks.len() as int) == walk.blocks
            &&& after.residue.len() == walk.residue.len() + tokens_in(node, language)
            &&& after.residue.take(walk.residue.len() as int) == walk.residue
        }),
    decreases node, node.children.len() + 1,
{
    let at = walk_at(node, class_name, language, module_name, matchers, walk);
    lemma_walk_children_add(
        node,
        node.children.len(),
        inner_class(node, class_name, language),
        language,
        module_name,
        matchers,
        at,
    );
    let after = walk_node(node, class_name, language, module_name, matchers, walk);
    assert(at.blocks.take(walk.blocks.len() as int) =~= walk.blocks);
    assert(at.residue.take(walk.residue.len() as int) =~= walk.residue);
    assert(after.blocks.take(walk.blocks.len() as int) =~= after.blocks.take(
        at.blocks.len() as int,
    ).take(walk.blocks.len() as int));
    assert(after.residue.take(walk.residue.len() as int) =~= after.residue.take(
        at.residue.len() as int,
    ).take(walk.residue.len() as int));
}

/// `lemma_walk_adds` for the first `upto` children of a node.
pub proof fn lemma_walk_children_add(
    node: SyntaxTree,
    upto: nat,
    class_name: Option<Seq<char>>,
    language: Grammar,
    module_name: Seq<char>,
    matchers: Option<MatchersView>,
    walk: Walk,
)
    ensures
        ({
            let after = walk_children(
                node,
                upto,
                class_name,
                language,
                module_name,
                matchers,
                walk,
            );
            &&& after.blocks.len() == walk.blocks.len() + functions_below(node, upto, language)
            &&& after.blocks.take(walk.blocks.len() as int) == walk.blocks
            &&& after.residue.len() == walk.residue.len() + tokens_below(node, upto, language)
            &&& after.residue.take(walk.residue.len() as int) == walk.residue
        }),
    decreases node, upto,
{
    if upto == 0 || upto > node.children.len() {
        assert(walk.blocks.take(walk.blocks.len() as int) =~= walk.blocks);
        assert(walk.residue.take(walk.residue.len() as int) =~= walk.residue);
    } else {
        let before = walk_children(
            node,
            (upto - 1) as nat,
            class_name,
            language,
            module_name,
            matchers,
            walk,
        );
        lemma_walk_children_add(
            node,
            (upto - 1) as nat,
            class_name,
            language,
            module_name,
            matchers,
            walk,
        );
        lemma_walk_adds(
            node.children[upto - 1],
            class_name,
            language,
            module_name,
            matchers,
            before,
        );
        let after = walk_children(node, upto, class_name, language, module_name, matchers, walk);
        assert(after.blocks.take(walk.blocks.len() as int) =~= after.blocks.take(
            before.blocks.len() as int,
        ).take(walk.blocks.len() as int));
        assert(after.residue.take(walk.residue.len() as int) =~= after.residue.take(
            before.residue.len() as int,
        ).take(walk.residue.len() as int));
    }
}

/// What a walk has gathered so far.
pub struct Traversal {
    /// The function blocks, in the order in which their nodes were met.
    pub blocks: Vec<Block>,
    /// The texts of the nodes that stand for no named rule.
    pub non_function_blocks: Vec<String>,
    /// What the imported names of the file mean.
    pub imports: StringMap<ImportTarget>,
    /// Whether an import statement was met without matchers to read it.
    pub missing_config: bool,
}

impl View for Traversal {
    type V = Walk;

    open spec fn view(&self) -> Walk {
        Walk {
            blocks: block_views(self.blocks@),
            residue: texts(self.non_function_blocks@),
            imports: import_table(self.imports),
            missing_config: self.missing_config,
        }
    }
}

impl Traversal {
    /// A walk that has gathered nothing.
    pub fn new() -> (state: Traversal)
        ensures
            state@ == empty_walk(),
    {
        let state = Traversal {
            blocks: Vec::new(),
            non_function_blocks: Vec::new(),
            imports: StringMap::new(),
            missing_config: false,
        };
        assert(state@.blocks =~= Seq::<BlockView>::empty());
        assert(state@.residue =~= Seq::<Seq<char>>::empty());
        assert(state@.imports =~= Map::<Seq<char>, TargetView>::empty());
        state
    }
}

/// The imports that the statement `node` makes, read with the matchers that
/// the settings hold for `language`; an error where they hold none.
pub fn parse_import_statement(node: &SyntaxNode, language: Grammar, config: &Config) -> (r: Result<
    Vec<ImportBinding>,
    IndexError,
>)
    ensures
        match config.matchers_of(settings_name(language)) {
            Some(m) => r matches Ok(bindings) && binding_views(bindings@) == import_bindings(
                node@,
                m,
            ),
            None => r == Err::<Vec<ImportBinding>, IndexError>(IndexError::MissingLanguageConfig),
        },
{
    match config.matchers(language_name(language)) {
        Some(matchers) => Ok(resolve_imports(node, matchers)),
        None => Err(IndexError::MissingLanguageConfig),
    }
}

/// A copy of an import.
fn copy_binding(binding: &ImportBinding) -> (copy: ImportBinding)
    ensures
        copy@ == binding@,
{
    ImportBinding {
        module_name: binding.module_name.clone(),
        object_name: binding.object_name.clone(),
        alias: binding.alias.clone(),
    }
}

/// The string that `text` may hold, as an owned one.
fn owned_text(text: Option<&str>) -> (r: Option<String>)
    ensures
        opt_text(r) == opt_str_text(text),
{
    match text {
        Some(t) => Some(t.to_owned()),
        None => None,
    }
}

/// Walks `node` and all nodes below it, each node once, and adds what is
/// found to `state`. `class_name` is the class around the node,
/// `module_name` the path of the file, which stands in every key.
pub fn traverse_tree(
    node: &SyntaxNode,
    state: &mut Traversal,
    language: Grammar,
    class_name: Option<&str>,
    module_name: &str,
    config: &Config,
)
    ensures
        final(state)@ == walk_node(
            node@,
            opt_str_text(class_name),
            language,
            module_name@,
            config.matchers_of(settings_name(language)),
            old(state)@,
        ),
    decreases node@, 1nat,
{
    proof {
        lemma_view(node);
    }
    let ghost matchers = config.matchers_of(settings_name(language));
    let ghost start = state@;
    let kind = node.kind.as_str();
    let mut inner: Option<String> = None;
    if is_import_statement(kind, language) {
        match parse_import_statement(node, language, config) {
            Ok(bindings) => {
                let ghost found = binding_views(bindings@);
                let mut i: usize = 0;
                while i < bindings.len()
                    invariant
                        i <= bindings@.len(),
                        found == binding_views(bindings@),
                        state@ == (Walk {
                            imports: bind_all(start.imports, found, i as nat),
                            ..start
                        }),
                    decreases bindings.len() - i,
                {
                    assert(found[i as int] == bindings@[i as int]@);
                    add_import(&mut state.imports, copy_binding(&bindings[i]));
                    i += 1;
                }
            },
            Err(_) => {
                state.missing_config = true;
            },
        }
    } else if is_class_definition(kind, language) {
        inner = text_under(node, "name");
    } else if is_function_node(kind, language) {
        let function_name = match get_function_name(node, language) {
            Some(name) => name,
            None => String::from_str("UnnamedFunction"),
        };
        let node_key = generate_node_key(module_name, class_name, function_name.as_str());
        let mut block = Block::new(
            node_key,
            BlockType::Function,
            node.text.clone(),
            Some(function_name),
            owned_text(class_name),
        );
        block.outgoing_calls = find_calls(node, language, module_name, &state.imports);
        let ghost before = block_views(state.blocks@);
        assert(block@ == function_block(
            node@,
            opt_str_text(class_name),
            language,
            module_name@,
            start.imports,
        ));
        state.blocks.push(block);
        assert(block_views(state.blocks@) =~= before.push(block@));
    } else if !node.named {
        let ghost before = texts(state.non_function_blocks@);
        state.non_function_blocks.push(node.text.clone());
        assert(texts(state.non_function_blocks@) =~= before.push(node@.text));
    }
    assert(state@ == walk_at(
        node@,
        opt_str_text(class_name),
        language,
        module_name@,
        matchers,
        start,
    ));
    match &inner {
        Some(name) => {
            traverse_children(node, state, language, Some(name.as_str()), module_name, config);
        },
        None => {
            traverse_children(node, state, language, class_name, module_name, config);
        },
    }
}

/// Walks the children of `node`, in source order, with `class_name` around
/// them.
fn traverse_children(
    node: &SyntaxNode,
    state: &mut Traversal,
    language: Grammar,
    class_name: Option<&str>,
    module_name: &str,
    config: &Config,
)
    ensures
        final(state)@ == walk_children(
            node@,
            node@.children.len(),
            opt_str_text(class_name),
            language,
            module_name@,
            config.matchers_of(settings_name(language)),
            old(state)@,
        ),
    decreases node@, 0nat,
{
    proof {
        lemma_view(node);
    }
    let ghost start = state@;
    let mut i: usize = 0;
    while i < node.children.len()
        invariant
            i <= node.children@.len(),
            node@.children.len() == node.children@.len(),
            state@ == walk_children(
                node@,
                i as nat,
                opt_str_text(class_name),
                language,
                module_name@,
                config.matchers_of(settings_name(language)),
                start,
            ),
        decreases node.children.len() - i,
    {
        let child = &node.children[i];
        proof {
            lemma_view(node);
        }
        assert(node@.children[i as int] == child@);
        traverse_tree(child, state, language, class_name, module_name, config);
        i += 1;
    }
}

/// The lines joined into one text, with a line feed between each two.
pub open spec fn joined(lines: Seq<Seq<char>>) -> Seq<char>
    decreases lines.len(),
{
    if lines.len() == 0 {
        Seq::empty()
    } else if lines.len() == 1 {
        lines[0]
    } else {
        joined(lines.drop_last()) + seq!['\n'] + lines.last()
    }
}

/// The key under which the residue block of a file goes.
pub open spec fn residue_key() -> Seq<char> {
    "non_function_block"@
}

/// The one block that holds the residue of a file.
pub open spec fn residue_block(residue: Seq<Seq<char>>) -> BlockView {
    BlockView {
        node_key: residue_key(),
        block_type: BlockType::NonFunction,
        content: joined(residue),
        function_name: None,
        class_name: None,
        outgoing_calls: Seq::empty(),
    }
}

/// The blocks of a file whose walk is done: the function blocks, and after
/// them the residue block if there is any residue.
pub open spec fn file_blocks(walk: Walk) -> Seq<BlockView> {
    if walk.residue.len() > 0 {
        walk.blocks.push(residue_block(walk.residue))
    } else {
        walk.blocks
    }
}

/// The walk of a whole tree, from nothing.
pub open spec fn tree_walk(
    root: SyntaxTree,
    language: Grammar,
    module_name: Seq<char>,
    matchers: Option<MatchersView>,
) -> Walk {
    walk_node(root, None, language, module_name, matchers, empty_walk())
}

/// Joins the lines into one text, with a line feed between each two.
pub fn join_lines(lines: &Vec<String>) -> (text: String)
    ensures
        text@ == joined(texts(lines@)),
{
    proof {
        reveal_strlit("\n");
    }
    let mut text = String::new();
    let mut i: usize = 0;
    assert(texts(lines@).take(0) =~= Seq::<Seq<char>>::empty());
    while i < lines.len()
        invariant
            i <= lines@.len(),
            "\n"@ == seq!['\n'],
            text@ == joined(texts(lines@).take(i as int)),
        decreases lines.len() - i,
    {
        let ghost upto = texts(lines@).take(i + 1);
        assert(upto.drop_last() =~= texts(lines@).take(i as int));
        assert(upto.last() == lines@[i as int]@);
        if i > 0 {
            text.append("\n");
        } else {
            assert(text@ =~= Seq::<char>::empty());
        }
        text.append(lines[i].as_str());
        assert(text@ =~= joined(upto));
        i += 1;
    }
    assert(texts(lines@).take(i as int) =~= texts(lines@));
    text
}

/// The blocks of the file whose syntax tree is `root`: its functions in the
/// order in which the walk meets them, then its residue, if any. The walk
/// fails exactly if the tree holds an import statement and the settings
/// hold no matchers for the language.
pub fn parse_tree(root: &SyntaxNode, language: Grammar, module_name: &str, config: &Config) -> (r:
    Result<Vec<Block>, IndexError>)
    ensures
        r is Err <==> config.matchers_of(settings_name(language)) is None && holds_import(
            root@,
            language,
        ),
        r is Err ==> r == Err::<Vec<Block>, IndexError>(IndexError::MissingLanguageConfig),
        r matches Ok(blocks) ==> block_views(blocks@) == file_blocks(
            tree_walk(root@, language, module_name@, config.matchers_of(settings_name(language))),
        ),
{
    let mut state = Traversal::new();
    traverse_tree(root, &mut state, language, None, module_name, config);
    proof {
        lemma_walk_marks(
            root@,
            None,
            language,
            module_name@,
            config.matchers_of(settings_name(language)),
            empty_walk(),
        );
    }
    if state.missing_config {
        return Err(IndexError::MissingLanguageConfig);
    }
    let Traversal { blocks, non_function_blocks, imports, missing_config } = state;
    let mut blocks = blocks;
    if non_function_blocks.len() > 0 {
        let content = join_lines(&non_function_blocks);
        let ghost before = block_views(blocks@);
        let block = Block::new(
            String::from_str("non_function_block"),
            BlockType::NonFunction,
            content,
            None,
            None,
        );
        blocks.push(block);
        assert(block_views(blocks@) =~= before.push(block@));
    }
    Ok(blocks)
}

} // verus!
