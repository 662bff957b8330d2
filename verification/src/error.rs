//! The ways in which indexing can fail.

use vstd::prelude::*;

verus! {

/// Why a file, or a whole run, could not be indexed.
#[derive(Debug, Clone, Copy, PartialEq, Eq, Structural)]
pub enum IndexError {
    /// No grammar is registered for the extension of the file. The file is
    /// left out and the run goes on.
    UnsupportedLanguage,
    /// The file could not be read. The file is left out and the run goes on.
    FileRead,
    /// The source of the file could not be turned into a syntax tree. The
    /// file is left out and the run goes on.
    Parse,
    /// A registered grammar could not be given to the parser. The run ends.
    GrammarInit,
    /// An import statement was met in a language for which the settings
    /// hold no matchers. The run ends.
    MissingLanguageConfig,
}

impl IndexError {
    /// Whether the error ends the run; the others cost only the one file.
    pub open spec fn fatal(self) -> bool {
        self == IndexError::GrammarInit || self == IndexError::MissingLanguageConfig
    }

    /// Whether the error ends the run.
    pub fn is_fatal(&self) -> (r: bool)
        ensures
            r == self.fatal(),
    {
        match self {
            IndexError::GrammarInit => true,
            IndexError::MissingLanguageConfig => true,
            _ => false,
        }
    }
}

} // verus!
