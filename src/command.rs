//! The decisions of the `create` command: where to look for a grammar.
use vstd::prelude::*;

verus! {

/// The `create` command: a source file to analyze, and optionally the rule
/// file and the grammar scope to use instead of the detected ones.
pub struct Command {
    pub source_file: String,
    pub tsg: Option<String>,
    pub scope: Option<String>,
}

/// A place to look for the grammar of the source file.
#[derive(Clone, Copy, Debug, PartialEq, Eq, Structural)]
pub enum Lookup {
    /// The grammar registered for the scope given on the command line.
    ByScope,
    /// The grammar whose file types match the source file's name.
    ByFileName,
    /// The first grammar found in the current directory.
    InCurrentDir,
}

/// What to do after a lookup.
#[derive(Clone, Copy, Debug, PartialEq, Eq, Structural)]
pub enum Choice {
    /// Look in this place next.
    Next(Lookup),
    /// Use the grammar the last lookup found.
    Found,
    /// The scope given on the command line names no grammar.
    UnknownScope,
    /// No grammar was found anywhere.
    NoLanguage,
}

impl Command {
    pub fn new(source_file: String, tsg: Option<String>, scope: Option<String>) -> (r: Command)
        ensures
            r.source_file == source_file,
            r.tsg == tsg,
            r.scope == scope,
    {
        Command { source_file, tsg, scope }
    }

    /// The first place to look: the given scope if there is one, else the file name.
    pub fn first_lookup(&self) -> (r: Lookup)
        ensures
            r == (if self.scope is Some { Lookup::ByScope } else { Lookup::ByFileName }),
    {
        if self.scope.is_some() {
            Lookup::ByScope
        } else {
            Lookup::ByFileName
        }
    }
}

/// What follows a lookup in `place` that did or did not find a grammar. A
/// given scope is final: when it names no grammar, nothing else is tried.
pub fn after_lookup(place: Lookup, found: bool) -> (r: Choice)
    ensures
        found ==> r == Choice::Found,
        !found && place == Lookup::ByScope ==> r == Choice::UnknownScope,
        !found && place == Lookup::ByFileName ==> r == Choice::Next(Lookup::InCurrentDir),
        !found && place == Lookup::InCurrentDir ==> r == Choice::NoLanguage,
{
    if found {
        Choice::Found
    } else {
        match place {
            Lookup::ByScope => Choice::UnknownScope,
            Lookup::ByFileName => Choice::Next(Lookup::InCurrentDir),
            Lookup::InCurrentDir => Choice::NoLanguage,
        }
    }
}

} // verus!
