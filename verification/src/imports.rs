//! The import resolver: it reads the module, the object and the alias out of
//! an import statement of any language, led by the matchers of that language.

use crate::config::{Matcher, MatcherView, Matchers, MatchersView};
use crate::syntax::{lemma_view, SyntaxNode, SyntaxTree};
use crate::text::{opt_text, same_text, texts};
use vstd::prelude::*;

verus! {

/// One import of a file: the object `object_name` of the module
/// `module_name`, which the file knows under the name `alias`.
#[derive(Debug, Clone, PartialEq, Eq)]
pub struct ImportBinding {
    /// The module that the object comes from, as the statement spells it.
    pub module_name: String,
    /// The name of the object in its module.
    pub object_name: String,
    /// The name under which the file uses the object.
    pub alias: String,
}

/// An import as plain text values.
pub struct BindingView {
    pub module_name: Seq<char>,
    pub object_name: Seq<char>,
    pub alias: Seq<char>,
}

impl View for ImportBinding {
    type V = BindingView;

    open spec fn view(&self) -> BindingView {
        BindingView {
            module_name: self.module_name@,
            object_name: self.object_name@,
            alias: self.alias@,
        }
    }
}

/// The views of a sequence of imports.
pub open spec fn binding_views(bindings: Seq<ImportBinding>) -> Seq<BindingView> {
    Seq::new(bindings.len(), |i: int| bindings[i]@)
}

/// The index of the first of `children` that hangs under the field `name`;
/// their number where none does.
pub open spec fn first_under(children: Seq<SyntaxTree>, name: Seq<char>) -> int
    decreases children.len(),
{
    if children.len() == 0 || children[0].field == Some(name) {
        0
    } else {
        1 + first_under(children.drop_first(), name)
    }
}

/// The first child of `node` that hangs under the field `name`.
pub open spec fn child_under(node: SyntaxTree, name: Seq<char>) -> Option<SyntaxTree> {
    let i = first_under(node.children, name);
    if i < node.children.len() {
        Some(node.children[i])
    } else {
        None
    }
}

/// What a matcher reads at `node`: the text of the first child under the
/// matcher's field, where that child is of the matcher's kind.
pub open spec fn read_matcher(node: SyntaxTree, matcher: MatcherView) -> Option<Seq<char>> {
    match child_under(node, matcher.field_name) {
        Some(child) => if child.kind == matcher.kind {
            Some(child.text)
        } else {
            None
        },
        None => None,
    }
}

/// Whether `child` hangs under the matcher's field and is of its kind.
pub open spec fn fits(child: SyntaxTree, matcher: MatcherView) -> bool {
    child.field == Some(matcher.field_name) && child.kind == matcher.kind
}

/// The texts of all those of `children` that fit the matcher, in source
/// order.
pub open spec fn read_all(children: Seq<SyntaxTree>, matcher: MatcherView) -> Seq<Seq<char>>
    decreases children.len(),
{
    if children.len() == 0 {
        Seq::empty()
    } else if fits(children.last(), matcher) {
        read_all(children.drop_last(), matcher).push(children.last().text)
    } else {
        read_all(children.drop_last(), matcher)
    }
}

/// What has been read of an import statement so far.
pub struct ImportScan {
    /// The module name that was read last.
    pub module_name: Option<Seq<char>>,
    /// The object name that was read last.
    pub object_name: Option<Seq<char>>,
    /// The alias that was read last.
    pub alias: Option<Seq<char>>,
    /// Every object name that fits its matcher, in source order.
    pub objects: Seq<Seq<char>>,
}

/// Nothing read yet.
pub open spec fn empty_scan() -> ImportScan {
    ImportScan { module_name: None, object_name: None, alias: None, objects: Seq::empty() }
}

/// `new` where it holds a text, else `old`.
pub open spec fn later(old: Option<Seq<char>>, new: Option<Seq<char>>) -> Option<Seq<char>> {
    if new is Some {
        new
    } else {
        old
    }
}

/// The scan after `node` itself has been read: each of the three matchers
/// that reads a text at the node replaces what was read before, and the
/// children that fit the object matcher join the objects.
pub open spec fn scan_step(node: SyntaxTree, matchers: MatchersView, scan: ImportScan) -> ImportScan {
    ImportScan {
        module_name: later(scan.module_name, read_matcher(node, matchers.module_name)),
        object_name: later(scan.object_name, read_matcher(node, matchers.object_name)),
        alias: later(scan.alias, read_matcher(node, matchers.alias)),
        objects: scan.objects + read_all(node.children, matchers.object_name),
    }
}

/// The scan after `node` and all its named descendants have been read, each
/// node before the nodes below it, siblings in source order.
pub open spec fn scan_node(node: SyntaxTree, matchers: MatchersView, scan: ImportScan) -> ImportScan
    decreases node, node.children.len() + 1,
{
    scan_children(node, node.children.len(), matchers, scan_step(node, matchers, scan))
}

/// The scan after the named ones among the first `upto` children of `node`
/// have been read with their named descendants.
pub open spec fn scan_children(
    node: SyntaxTree,
    upto: nat,
    matchers: MatchersView,
    scan: ImportScan,
) -> ImportScan
    decreases node, upto,
{
    if upto == 0 || upto > node.children.len() {
        scan
    } else {
        let before = scan_children(node, (upto - 1) as nat, matchers, scan);
        let child = node.children[upto - 1];
        if child.named {
            scan_node(child, matchers, before)
        } else {
            before
        }
    }
}

/// The text that was read, or the empty text.
pub open spec fn text_or_empty(text: Option<Seq<char>>) -> Seq<char> {
    match text {
        Some(t) => t,
        None => Seq::empty(),
    }
}

/// The imports that a finished scan stands for. With an alias there is one:
/// the object read last, under the alias. Without, each object that was met
/// is imported under its own name. All carry the module read last.
pub open spec fn bindings_of(scan: ImportScan) -> Seq<BindingView> {
    let module_name = text_or_empty(scan.module_name);
    match scan.alias {
        Some(alias) => seq![
            BindingView { module_name, object_name: text_or_empty(scan.object_name), alias },
        ],
        None => Seq::new(
            scan.objects.len(),
            |i: int|
                BindingView {
                    module_name,
                    object_name: scan.objects[i],
                    alias: scan.objects[i],
                },
        ),
    }
}

/// The imports that the statement `node` makes. A node of another kind than
/// the language's import statement makes none.
pub open spec fn import_bindings(node: SyntaxTree, matchers: MatchersView) -> Seq<BindingView> {
    if node.kind == matchers.import_statement {
        bindings_of(scan_node(node, matchers, empty_scan()))
    } else {
        Seq::empty()
    }
}

/// The first child of `node` that hangs under the field `name`.
pub fn child_by_field_name<'a>(node: &'a SyntaxNode, name: &str) -> (r: Option<&'a SyntaxNode>)
    ensures
        r is Some == child_under(node@, name@) is Some,
        r matches Some(child) ==> Some(child@) == child_under(node@, name@),
{
    proof {
        lemma_view(node);
        assert(node@.children.skip(0) =~= node@.children);
    }
    let mut i: usize = 0;
    while i < node.children.len()
        invariant
            i <= node.children@.len(),
            node@.children.len() == node.children@.len(),
            first_under(node@.children, name@) == i + first_under(
                node@.children.skip(i as int),
                name@,
            ),
        decreases node.children.len() - i,
    {
        let child = &node.children[i];
        proof {
            lemma_view(node);
            lemma_view(child);
        }
        assert(node@.children.skip(i as int)[0] == child@);
        let under = match &child.field {
            Some(field) => same_text(field.as_str(), name),
            None => false,
        };
        if under {
            return Some(child);
        }
        assert(node@.children.skip(i as int).drop_first() =~= node@.children.skip(i + 1));
        i += 1;
    }
    None
}

/// The text that `matcher` reads at `node`.
pub fn read_with(node: &SyntaxNode, matcher: &Matcher) -> (r: Option<String>)
    ensures
        opt_text(r) == read_matcher(node@, matcher@),
{
    match child_by_field_name(node, matcher.field_name.as_str()) {
        Some(child) => {
            proof {
                lemma_view(child);
            }
            if same_text(child.kind.as_str(), matcher.kind.as_str()) {
                Some(child.text.clone())
            } else {
                None
            }
        },
        None => None,
    }
}

/// What the three matchers of a language read at `child`: the module name,
/// the object name and the alias.
pub fn filter_import_matchers(child: &SyntaxNode, matchers: &Matchers) -> (r: (
    Option<String>,
    Option<String>,
    Option<String>,
))
    ensures
        opt_text(r.0) == read_matcher(child@, matchers@.module_name),
        opt_text(r.1) == read_matcher(child@, matchers@.object_name),
        opt_text(r.2) == read_matcher(child@, matchers@.alias),
{
    let module_name = read_with(child, &matchers.module_name);
    let object_name = read_with(child, &matchers.object_name);
    let alias = read_with(child, &matchers.alias);
    (module_name, object_name, alias)
}

/// What has been read of an import statement so far.
pub struct ScanState {
    pub module_name: Option<String>,
    pub object_name: Option<String>,
    pub alias: Option<String>,
    pub objects: Vec<String>,
}

impl View for ScanState {
    type V = ImportScan;

    open spec fn view(&self) -> ImportScan {
        ImportScan {
            module_name: opt_text(self.module_name),
            object_name: opt_text(self.object_name),
            alias: opt_text(self.alias),
            objects: texts(self.objects@),
        }
    }
}

/// Adds to `objects` the texts of the children of `node` that fit `matcher`.
fn collect_objects(node: &SyntaxNode, matcher: &Matcher, objects: &mut Vec<String>)
    ensures
        texts(final(objects)@) == texts(old(objects)@) + read_all(node@.children, matcher@),
{
    let ghost start = texts(objects@);
    proof {
        lemma_view(node);
    }
    let mut i: usize = 0;
    assert(node@.children.take(0) =~= Seq::<SyntaxTree>::empty());
    assert(texts(objects@) =~= start + read_all(node@.children.take(0), matcher@));
    while i < node.children.len()
        invariant
            i <= node.children@.len(),
            node@.children.len() == node.children@.len(),
            texts(objects@) == start + read_all(node@.children.take(i as int), matcher@),
        decreases node.children.len() - i,
    {
        let child = &node.children[i];
        proof {
            lemma_view(node);
            lemma_view(child);
        }
        let ghost upto = node@.children.take(i + 1);
        assert(upto.drop_last() =~= node@.children.take(i as int));
        assert(upto.last() == child@);
        let under = match &child.field {
            Some(field) => same_text(field.as_str(), matcher.field_name.as_str()),
            None => false,
        };
        if under && same_text(child.kind.as_str(), matcher.kind.as_str()) {
            let ghost before = texts(objects@);
            objects.push(child.text.clone());
            assert(texts(objects@) =~= before.push(child@.text));
            assert(texts(objects@) =~= start + read_all(upto, matcher@));
        }
        i += 1;
    }
    assert(node@.children.take(i as int) =~= node@.children);
}

/// Reads `node` and its named descendants into `scan`.
fn scan_import(node: &SyntaxNode, matchers: &Matchers, scan: &mut ScanState)
    ensures
        final(scan)@ == scan_node(node@, matchers@, old(scan)@),
    decreases node@,
{
    let (module_name, object_name, alias) = filter_import_matchers(node, matchers);
    if module_name.is_some() {
        scan.module_name = module_name;
    }
    if object_name.is_some() {
        scan.object_name = object_name;
    }
    if alias.is_some() {
        scan.alias = alias;
    }
    collect_objects(node, &matchers.object_name, &mut scan.objects);
    let ghost stepped = scan@;
    assert(stepped == scan_step(node@, matchers@, old(scan)@));
    proof {
        lemma_view(node);
    }
    let mut i: usize = 0;
    while i < node.children.len()
        invariant
            i <= node.children@.len(),
            node@.children.len() == node.children@.len(),
            scan@ == scan_children(node@, i as nat, matchers@, stepped),
        decreases node.children.len() - i,
    {
        let child = &node.children[i];
        proof {
            lemma_view(node);
            lemma_view(child);
        }
        assert(node@.children[i as int] == child@);
        if child.named {
            scan_import(child, matchers, scan);
        }
        i += 1;
    }
}

/// The imports that the statement `node` makes, read with `matchers`.
pub fn resolve_imports(node: &SyntaxNode, matchers: &Matchers) -> (bindings: Vec<ImportBinding>)
    ensures
        binding_views(bindings@) == import_bindings(node@, matchers@),
{
    let mut bindings: Vec<ImportBinding> = Vec::new();
    proof {
        lemma_view(node);
    }
    if !same_text(node.kind.as_str(), matchers.import_statement.as_str()) {
        assert(binding_views(bindings@) =~= Seq::<BindingView>::empty());
        return bindings;
    }
    let mut scan = ScanState {
        module_name: None,
        object_name: None,
        alias: None,
        objects: Vec::new(),
    };
    assert(scan@.objects =~= Seq::<Seq<char>>::empty());
    scan_import(node, matchers, &mut scan);
    let ghost done = scan@;
    let module_name = match scan.module_name {
        Some(text) => text,
        None => String::new(),
    };
    match scan.alias {
        Some(alias) => {
            let object_name = match scan.object_name {
                Some(text) => text,
                None => String::new(),
            };
            bindings.push(ImportBinding { module_name, object_name, alias });
            assert(binding_views(bindings@) =~= bindings_of(done));
        },
        None => {
            let mut i: usize = 0;
            while i < scan.objects.len()
                invariant
                    i <= scan.objects@.len(),
                    bindings@.len() == i,
                    module_name@ == text_or_empty(done.module_name),
                    done.objects == texts(scan.objects@),
                    forall|j: int|
                        0 <= j < i ==> (#[trigger] bindings@[j])@ == (BindingView {
                            module_name: module_name@,
                            object_name: done.objects[j],
                            alias: done.objects[j],
                        }),
                decreases scan.objects.len() - i,
            {
                bindings.push(
                    ImportBinding {
                        module_name: module_name.clone(),
                        object_name: scan.objects[i].clone(),
                        alias: scan.objects[i].clone(),
                    },
                );
                i += 1;
            }
            assert(binding_views(bindings@) =~= bindings_of(done));
        },
    }
    bindings
}

} // verus!
