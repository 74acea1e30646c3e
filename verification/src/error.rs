//! Why a rule configuration could not be expanded.
use vstd::prelude::*;
use crate::text::{push_str_chars, string_of};

verus! {

/// An error met while reading the `lists` and `macros` definitions of a rule
/// configuration or while expanding the macros. Where the error concerns a
/// named definition, it carries the name.
#[derive(Debug, PartialEq, Eq)]
pub enum ExpandError {
    /// `lists` is not a sequence.
    ListsNotSequence,
    /// An entry of `lists` is not a mapping.
    ListEntryNotMapping,
    /// An entry of `lists` has no string `list` name.
    ListNameMissing,
    /// A list name is not an identifier.
    InvalidListName(String),
    /// A list has no `items` sequence.
    ListItemsMissing(String),
    /// A list has an empty `items` sequence.
    ListEmpty(String),
    /// An item of a list is neither a string nor an integer.
    ListItemNotScalar(String),
    /// Two lists have the same name.
    DuplicateList(String),
    /// `macros` is not a sequence.
    MacrosNotSequence,
    /// An entry of `macros` is not a mapping.
    MacroEntryNotMapping,
    /// An entry of `macros` has no string `macro` name.
    MacroNameMissing,
    /// A macro has no string `condition`.
    MacroConditionMissing(String),
    /// A macro name is not an identifier.
    InvalidMacroName(String),
    /// A macro condition is empty or blank.
    EmptyCondition(String),
    /// Two macros have the same name.
    DuplicateMacro(String),
    /// The macros refer to one another in a cycle; the path of names that
    /// was being expanded, ending with the name that closed the cycle.
    CyclicMacro(Vec<String>),
}

/// The texts of a sequence of strings.
pub open spec fn names_of(v: Seq<String>) -> Seq<Seq<char>> {
    v.map_values(|s: String| s@)
}

/// What an `ExpandError` says, with its names as texts.
pub enum ErrorView {
    ListsNotSequence,
    ListEntryNotMapping,
    ListNameMissing,
    InvalidListName(Seq<char>),
    ListItemsMissing(Seq<char>),
    ListEmpty(Seq<char>),
    ListItemNotScalar(Seq<char>),
    DuplicateList(Seq<char>),
    MacrosNotSequence,
    MacroEntryNotMapping,
    MacroNameMissing,
    MacroConditionMissing(Seq<char>),
    InvalidMacroName(Seq<char>),
    EmptyCondition(Seq<char>),
    DuplicateMacro(Seq<char>),
    CyclicMacro(Seq<Seq<char>>),
}

impl View for ExpandError {
    type V = ErrorView;

    open spec fn view(&self) -> ErrorView {
        match self {
            ExpandError::ListsNotSequence => ErrorView::ListsNotSequence,
            ExpandError::ListEntryNotMapping => ErrorView::ListEntryNotMapping,
            ExpandError::ListNameMissing => ErrorView::ListNameMissing,
            ExpandError::InvalidListName(n) => ErrorView::InvalidListName(n@),
            ExpandError::ListItemsMissing(n) => ErrorView::ListItemsMissing(n@),
            ExpandError::ListEmpty(n) => ErrorView::ListEmpty(n@),
            ExpandError::ListItemNotScalar(n) => ErrorView::ListItemNotScalar(n@),
            ExpandError::DuplicateList(n) => ErrorView::DuplicateList(n@),
            ExpandError::MacrosNotSequence => ErrorView::MacrosNotSequence,
            ExpandError::MacroEntryNotMapping => ErrorView::MacroEntryNotMapping,
            ExpandError::MacroNameMissing => ErrorView::MacroNameMissing,
            ExpandError::MacroConditionMissing(n) => ErrorView::MacroConditionMissing(n@),
            ExpandError::InvalidMacroName(n) => ErrorView::InvalidMacroName(n@),
            ExpandError::EmptyCondition(n) => ErrorView::EmptyCondition(n@),
            ExpandError::DuplicateMacro(n) => ErrorView::DuplicateMacro(n@),
            ExpandError::CyclicMacro(p) => ErrorView::CyclicMacro(names_of(p@)),
        }
    }
}

/// The names of a path, each after the one before and an arrow.
pub open spec fn joined_path(p: Seq<Seq<char>>) -> Seq<char>
    decreases p.len(),
{
    if p.len() == 0 {
        Seq::empty()
    } else if p.len() == 1 {
        p[0]
    } else {
        joined_path(p.drop_last()) + " -> "@ + p.last()
    }
}

/// The text reported for an error.
pub open spec fn message_text(e: ErrorView) -> Seq<char> {
    match e {
        ErrorView::ListsNotSequence =>
            "`lists` must be a list of `- list: <name>` / `items: [...]` entries"@,
        ErrorView::ListEntryNotMapping =>
            "each `lists` entry must be a mapping with `list` and `items` keys"@,
        ErrorView::ListNameMissing => "`lists` entry is missing a string `list` name"@,
        ErrorView::InvalidListName(n) => "invalid list name `"@ + n
            + "`: expected an identifier like `shell_binaries`"@,
        ErrorView::ListItemsMissing(n) => "list `"@ + n + "` is missing an `items` array"@,
        ErrorView::ListEmpty(n) => "list `"@ + n + "` has no items"@,
        ErrorView::ListItemNotScalar(n) => "list `"@ + n + "` items must be strings or integers"@,
        ErrorView::DuplicateList(n) => "list `"@ + n + "` is defined more than once"@,
        ErrorView::MacrosNotSequence =>
            "`macros` must be a list of `- macro: <name>` / `condition: <expr>` entries"@,
        ErrorView::MacroEntryNotMapping =>
            "each `macros` entry must be a mapping with `macro` and `condition` keys"@,
        ErrorView::MacroNameMissing => "`macros` entry is missing a string `macro` name"@,
        ErrorView::MacroConditionMissing(n) => "macro `"@ + n
            + "` is missing a string `condition`"@,
        ErrorView::InvalidMacroName(n) => "invalid macro name `"@ + n
            + "`: expected an identifier like `shell_proc`"@,
        ErrorView::EmptyCondition(n) => "macro `"@ + n + "` has an empty `condition`"@,
        ErrorView::DuplicateMacro(n) => "macro `"@ + n + "` is defined more than once"@,
        ErrorView::CyclicMacro(p) => "cyclic macro reference: "@ + joined_path(p),
    }
}

/// The text `before`, then `name`, then `after`.
fn framed(before: &str, name: &String, after: &str) -> (r: String)
    ensures
        r@ == before@ + name@ + after@,
{
    let mut out: Vec<char> = Vec::new();
    push_str_chars(&mut out, before);
    push_str_chars(&mut out, name.as_str());
    push_str_chars(&mut out, after);
    string_of(&out)
}

/// Appends the names of `path` to `out`, an arrow between each two.
fn push_joined(out: &mut Vec<char>, path: &Vec<String>)
    ensures
        final(out)@ == old(out)@ + joined_path(names_of(path@)),
{
    let ghost start = out@;
    let mut i: usize = 0;
    while i < path.len()
        invariant
            i <= path@.len(),
            out@ == start + joined_path(names_of(path@).take(i as int)),
        decreases path@.len() - i,
    {
        let ghost ns = names_of(path@);
        assert(ns.take(i + 1).drop_last() =~= ns.take(i as int));
        if i > 0 {
            push_str_chars(out, " -> ");
        }
        push_str_chars(out, path[i].as_str());
        proof {
            if i == 0 {
                assert(joined_path(ns.take(0)) == Seq::<char>::empty());
                assert(ns.take(1).len() == 1);
            }
        }
        assert(out@ =~= start + joined_path(ns.take(i + 1)));
        i += 1;
    }
    assert(names_of(path@).take(path@.len() as int) =~= names_of(path@));
}

impl ExpandError {
    /// The text that reports this error.
    pub fn message(&self) -> (r: String)
        ensures
            r@ == message_text(self@),
    {
        match self {
            ExpandError::ListsNotSequence => {
                let mut out: Vec<char> = Vec::new();
                push_str_chars(
                    &mut out,
                    "`lists` must be a list of `- list: <name>` / `items: [...]` entries",
                );
                string_of(&out)
            },
            ExpandError::ListEntryNotMapping => {
                let mut out: Vec<char> = Vec::new();
                push_str_chars(
                    &mut out,
                    "each `lists` entry must be a mapping with `list` and `items` keys",
                );
                string_of(&out)
            },
            ExpandError::ListNameMissing => {
                let mut out: Vec<char> = Vec::new();
                push_str_chars(&mut out, "`lists` entry is missing a string `list` name");
                string_of(&out)
            },
            ExpandError::InvalidListName(n) => framed(
                "invalid list name `",
                n,
                "`: expected an identifier like `shell_binaries`",
            ),
            ExpandError::ListItemsMissing(n) => framed("list `", n, "` is missing an `items` array"),
            ExpandError::ListEmpty(n) => framed("list `", n, "` has no items"),
            ExpandError::ListItemNotScalar(n) => framed(
                "list `",
                n,
                "` items must be strings or integers",
            ),
            ExpandError::DuplicateList(n) => framed("list `", n, "` is defined more than once"),
            ExpandError::MacrosNotSequence => {
                let mut out: Vec<char> = Vec::new();
                push_str_chars(
                    &mut out,
                    "`macros` must be a list of `- macro: <name>` / `condition: <expr>` entries",
                );
                string_of(&out)
            },
            ExpandError::MacroEntryNotMapping => {
                let mut out: Vec<char> = Vec::new();
                push_str_chars(
                    &mut out,
                    "each `macros` entry must be a mapping with `macro` and `condition` keys",
                );
                string_of(&out)
            },
            ExpandError::MacroNameMissing => {
                let mut out: Vec<char> = Vec::new();
                push_str_chars(&mut out, "`macros` entry is missing a string `macro` name");
                string_of(&out)
            },
            ExpandError::MacroConditionMissing(n) => framed(
                "macro `",
                n,
                "` is missing a string `condition`",
            ),
            ExpandError::InvalidMacroName(n) => framed(
                "invalid macro name `",
                n,
                "`: expected an identifier like `shell_proc`",
            ),
            ExpandError::EmptyCondition(n) => framed("macro `", n, "` has an empty `condition`"),
            ExpandError::DuplicateMacro(n) => framed("macro `", n, "` is defined more than once"),
            ExpandError::CyclicMacro(p) => {
                let mut out: Vec<char> = Vec::new();
                push_str_chars(&mut out, "cyclic macro reference: ");
                push_joined(&mut out, p);
                string_of(&out)
            },
        }
    }
}

} // verus!
