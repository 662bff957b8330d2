//! The settings that indexing reads: for each language, how its import
//! statements are taken apart.

use crate::string_map::StringMap;
use vstd::prelude::*;

verus! {

/// Where one piece of an import statement is found: the field of a node
/// under which the piece hangs, and the kind that the piece must have.
#[derive(Debug)]
pub struct Matcher {
    /// The name of the field.
    pub field_name: String,
    /// The kind of node that is accepted under the field.
    pub kind: String,
}

/// How the import statements of one language are taken apart.
#[derive(Debug)]
pub struct Matchers {
    /// The kind of node that is an import statement.
    pub import_statement: String,
    /// Where the name of the imported module is found.
    pub module_name: Matcher,
    /// Where the name of the imported object is found.
    pub object_name: Matcher,
    /// Where the alias of the imported object is found.
    pub alias: Matcher,
}

/// The settings of one language.
#[derive(Debug)]
pub struct Language {
    /// How its import statements are taken apart.
    pub matchers: Matchers,
}

/// The settings of all languages, by the name of the language.
#[derive(Debug)]
pub struct Config {
    /// The settings of each language, under its name.
    pub languages: StringMap<Language>,
}

/// A matcher as plain text values.
pub struct MatcherView {
    pub field_name: Seq<char>,
    pub kind: Seq<char>,
}

/// The matchers of a language as plain text values.
pub struct MatchersView {
    pub import_statement: Seq<char>,
    pub module_name: MatcherView,
    pub object_name: MatcherView,
    pub alias: MatcherView,
}

impl View for Matcher {
    type V = MatcherView;

    open spec fn view(&self) -> MatcherView {
        MatcherView { field_name: self.field_name@, kind: self.kind@ }
    }
}

impl View for Matchers {
    type V = MatchersView;

    open spec fn view(&self) -> MatchersView {
        MatchersView {
            import_statement: self.import_statement@,
            module_name: self.module_name@,
            object_name: self.object_name@,
            alias: self.alias@,
        }
    }
}

impl Config {
    /// The matchers that the settings hold for the language `name`, if they
    /// hold any.
    pub open spec fn matchers_of(&self, name: Seq<char>) -> Option<MatchersView> {
        if self.languages@.contains_key(name) {
            Some(self.languages@[name].matchers@)
        } else {
            None
        }
    }

    /// Settings that know no language.
    pub fn new() -> (config: Config)
        ensures
            forall|name: Seq<char>| config.matchers_of(name) is None,
    {
        Config { languages: StringMap::new() }
    }

    /// The matchers that the settings hold for the language `name`.
    pub fn matchers(&self, name: &str) -> (r: Option<&Matchers>)
        ensures
            r is Some == self.matchers_of(name@) is Some,
            r matches Some(m) ==> Some(m@) == self.matchers_of(name@),
    {
        match self.languages.get(name) {
            Some(language) => Some(&language.matchers),
            None => None,
        }
    }
}

} // verus!
