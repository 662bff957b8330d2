//! The call extractor: it finds the calls below a function and turns what
//! each call names into the key of the function that is meant.

use crate::grammar::{call_kind, callee_of, get_call_expression_name, is_call_expression, Grammar};
use crate::imports::{BindingView, ImportBinding};
use crate::indexer::{generate_node_key, node_key_text};
use crate::string_map::{slot, StringMap};
use crate::syntax::{lemma_view, SyntaxNode, SyntaxTree};
use crate::text::{ascending, find_first, first_index, lemma_first_index, texts};
use vstd::prelude::*;

verus! {

/// What a file means by one of its imported names: an object of a module.
#[derive(Debug, Clone, PartialEq, Eq)]
pub struct ImportTarget {
    /// The module that the name comes from.
    pub module_name: String,
    /// The name of the object in its module.
    pub object_name: String,
}

/// An import target as plain text values.
pub struct TargetView {
    pub module_name: Seq<char>,
    pub object_name: Seq<char>,
}

impl View for ImportTarget {
    type V = TargetView;

    open spec fn view(&self) -> TargetView {
        TargetView { module_name: self.module_name@, object_name: self.object_name@ }
    }
}

/// The imports of a file as a mathematical map, from the name that the file
/// uses to what the name means.
pub open spec fn import_table(imports: StringMap<ImportTarget>) -> Map<Seq<char>, TargetView> {
    Map::new(|alias: Seq<char>| imports@.contains_key(alias), |alias: Seq<char>| imports@[alias]@)
}

/// The table after one more import: the alias now means the import's
/// object, whatever it meant before.
pub open spec fn bind(imports: Map<Seq<char>, TargetView>, binding: BindingView) -> Map<
    Seq<char>,
    TargetView,
> {
    imports.insert(
        binding.alias,
        TargetView { module_name: binding.module_name, object_name: binding.object_name },
    )
}

/// The table after the first `upto` of `bindings`, taken in order.
pub open spec fn bind_all(
    imports: Map<Seq<char>, TargetView>,
    bindings: Seq<BindingView>,
    upto: nat,
) -> Map<Seq<char>, TargetView>
    decreases upto,
{
    if upto == 0 || upto > bindings.len() {
        imports
    } else {
        bind(bind_all(imports, bindings, (upto - 1) as nat), bindings[upto - 1])
    }
}

/// The key that a call stands for. `text` is what the call names.
///
/// With a dot in it, the part before the first dot is taken as an object
/// and the rest as its method: the key is that of the method in the class
/// of the object's name, in the module that the object was imported from
/// or, for an object that was not imported, in the calling module.
///
/// Without a dot, an imported name stands for the object that it was
/// imported as, in its module; any other name for a function of the calling
/// module.
pub open spec fn call_key(
    text: Seq<char>,
    module_name: Seq<char>,
    imports: Map<Seq<char>, TargetView>,
) -> Seq<char> {
    let dot = first_index(text, '.');
    if dot < text.len() {
        let object = text.take(dot);
        let method = text.skip(dot + 1);
        if imports.contains_key(object) {
            node_key_text(imports[object].module_name, Some(object), method)
        } else {
            node_key_text(module_name, Some(object), method)
        }
    } else if imports.contains_key(text) {
        node_key_text(imports[text].module_name, None, imports[text].object_name)
    } else {
        node_key_text(module_name, None, text)
    }
}

/// A call of an imported name without a dot resolves to the imported
/// object in its own module, not to a function of the calling module.
pub proof fn lemma_alias_resolves_to_import(
    alias: Seq<char>,
    module_name: Seq<char>,
    imports: Map<Seq<char>, TargetView>,
)
    requires
        !alias.contains('.'),
        imports.contains_key(alias),
    ensures
        call_key(alias, module_name, imports) == node_key_text(
            imports[alias].module_name,
            None,
            imports[alias].object_name,
        ),
{
    lemma_first_index(alias, '.');
}

/// `keys` with `key` among them: a key that is there already changes
/// nothing, a new one goes to its place in the order of keys.
pub open spec fn with_key(keys: Seq<Seq<char>>, key: Seq<char>) -> Seq<Seq<char>> {
    if keys.contains(key) {
        keys
    } else {
        keys.insert(slot(keys, key), key)
    }
}

/// The call keys of `node` and of all nodes below it, added to `found`:
/// each node before the nodes below it, siblings in source order.
pub open spec fn calls_in(
    node: SyntaxTree,
    language: Grammar,
    module_name: Seq<char>,
    imports: Map<Seq<char>, TargetView>,
    found: Seq<Seq<char>>,
) -> Seq<Seq<char>>
    decreases node, node.children.len() + 1,
{
    calls_below(
        node,
        node.children.len(),
        language,
        module_name,
        imports,
        calls_at(node, language, module_name, imports, found),
    )
}

/// `found` with the key of the call that `node` itself is, if it is a call
/// that names what it calls.
pub open spec fn calls_at(
    node: SyntaxTree,
    language: Grammar,
    module_name: Seq<char>,
    imports: Map<Seq<char>, TargetView>,
    found: Seq<Seq<char>>,
) -> Seq<Seq<char>> {
    if call_kind(node.kind, language) {
        match callee_of(node) {
            Some(text) => with_key(found, call_key(text, module_name, imports)),
            None => found,
        }
    } else {
        found
    }
}

/// The call keys below the first `upto` children of `node`, those children
/// included, added to `found`.
pub open spec fn calls_below(
    node: SyntaxTree,
    upto: nat,
    language: Grammar,
    module_name: Seq<char>,
    imports: Map<Seq<char>, TargetView>,
    found: Seq<Seq<char>>,
) -> Seq<Seq<char>>
    decreases node, upto,
{
    if upto == 0 || upto > node.children.len() {
        found
    } else {
        calls_in(
            node.children[upto - 1],
            language,
            module_name,
            imports,
            calls_below(node, (upto - 1) as nat, language, module_name, imports, found),
        )
    }
}

/// The keys of the functions that are called in the subtree of `root`, each
/// once, in the order of keys.
pub open spec fn outgoing_calls(
    root: SyntaxTree,
    language: Grammar,
    module_name: Seq<char>,
    imports: Map<Seq<char>, TargetView>,
) -> Seq<Seq<char>> {
    calls_in(root, language, module_name, imports, Seq::empty())
}

/// Records that the file uses `binding.alias` for the imported object.
pub fn add_import(imports: &mut StringMap<ImportTarget>, binding: ImportBinding)
    ensures
        import_table(*final(imports)) == bind(import_table(*old(imports)), binding@),
{
    let ghost before = import_table(*imports);
    let ImportBinding { module_name, object_name, alias } = binding;
    let target = ImportTarget { module_name, object_name };
    imports.insert(alias, target);
    assert(import_table(*imports) =~= bind(before, binding@));
}

/// The key that a call stands for, `text` being what the call names.
pub fn resolve_call(text: &str, module_name: &str, imports: &StringMap<ImportTarget>) -> (key:
    String)
    ensures
        key@ == call_key(text@, module_name@, import_table(*imports)),
{
    let dot = find_first(text, '.');
    let len = text.unicode_len();
    proof {
        lemma_first_index(text@, '.');
    }
    if dot < len {
        let object = text.substring_char(0, dot);
        let method = text.substring_char(dot + 1, len);
        assert(object@ =~= text@.take(dot as int));
        assert(method@ =~= text@.skip(dot + 1));
        match imports.get(object) {
            Some(target) => generate_node_key(target.module_name.as_str(), Some(object), method),
            None => generate_node_key(module_name, Some(object), method),
        }
    } else {
        match imports.get(text) {
            Some(target) => generate_node_key(
                target.module_name.as_str(),
                None,
                target.object_name.as_str(),
            ),
            None => generate_node_key(module_name, None, text),
        }
    }
}

/// Adds to `found` the call keys of `node` and of all nodes below it.
fn collect_calls(
    node: &SyntaxNode,
    language: Grammar,
    module_name: &str,
    imports: &StringMap<ImportTarget>,
    found: &mut StringMap<()>,
)
    ensures
        final(found).keys() == calls_in(
            node@,
            language,
            module_name@,
            import_table(*imports),
            old(found).keys(),
        ),
    decreases node@,
{
    proof {
        lemma_view(node);
    }
    if is_call_expression(node.kind.as_str(), language) {
        match get_call_expression_name(node, language) {
            Some(text) => {
                let key = resolve_call(text.as_str(), module_name, imports);
                found.insert(key, ());
            },
            None => {},
        }
    }
    let ghost first = found.keys();
    let mut i: usize = 0;
    while i < node.children.len()
        invariant
            i <= node.children@.len(),
            node@.children.len() == node.children@.len(),
            found.keys() == calls_below(
                node@,
                i as nat,
                language,
                module_name@,
                import_table(*imports),
                first,
            ),
        decreases node.children.len() - i,
    {
        let child = &node.children[i];
        proof {
            lemma_view(node);
        }
        assert(node@.children[i as int] == child@);
        collect_calls(child, language, module_name, imports, found);
        i += 1;
    }
}

/// The keys of the functions that are called in the subtree of `root`, each
/// once, in the order of keys.
pub fn find_calls(
    root: &SyntaxNode,
    language: Grammar,
    module_name: &str,
    imports: &StringMap<ImportTarget>,
) -> (calls: Vec<String>)
    ensures
        texts(calls@) == outgoing_calls(root@, language, module_name@, import_table(*imports)),
        ascending(texts(calls@)),
{
    let mut found: StringMap<()> = StringMap::new();
    collect_calls(root, language, module_name, imports, &mut found);
    found.key_list()
}

} // verus!
