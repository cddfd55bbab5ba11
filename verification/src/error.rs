//! Errors raised while extending or querying the partition graph.
//!
//! Every error carries a category, a human-readable description that embeds
//! the offending identifier verbatim, and an optional suggestion string for
//! unresolved boundary paths.

use vstd::prelude::*;

verus! {

/// The broad classification of a failure.
#[derive(Clone, Copy, PartialEq, Eq, Structural, Debug)]
pub enum Category {
    /// Definition processing failed: a duplicate type/impl name, an invalid
    /// partition name, an unresolved export name, or an unresolved
    /// boundary-path segment.
    Definitions,
    /// A glob pattern could not be parsed.
    Parsing,
}

/// A failure of an extension or resolution call.
///
/// All errors of this library are fatal to the call that raised them; `hard`
/// marks the ones that reporting treats as non-recoverable. The offending
/// identifier is embedded verbatim in `desc`; a source-location trace is
/// not carried here, since the inputs of this core are plain strings and
/// the token machinery belongs to the surrounding parser.
#[derive(Debug)]
pub struct Error {
    pub cat: Category,
    pub desc: String,
    pub help_msg: Option<String>,
    pub hard: bool,
}

/// The heading that `render` places before the description.
pub open spec fn category_label(c: Category) -> Seq<char> {
    match c {
        Category::Definitions => "Definition Error: "@,
        Category::Parsing => "Parsing Error: "@,
    }
}

/// The single-line report for an error: heading, description, newline.
pub open spec fn rendered(e: Error) -> Seq<char> {
    category_label(e.cat) + e.desc@ + "\n"@
}

/// Description of a duplicate type/impl declaration.
pub open spec fn dup_item_desc(kind: Seq<char>, name: Seq<char>) -> Seq<char> {
    "the "@ + kind + " '"@ + name + "' is already defined"@
}

/// Description of an empty partition name.
pub open spec fn empty_part_name_desc() -> Seq<char> {
    "partition boundary names cannot be empty"@
}

/// Description of a partition name whose first character is not allowed.
pub open spec fn invalid_start_desc(name: Seq<char>) -> Seq<char> {
    "partition name '"@ + name + "' is invalid, must start with _,a-z,A-Z"@
}

/// Description of a partition name with a disallowed later character.
pub open spec fn invalid_char_desc(name: Seq<char>) -> Seq<char> {
    "partition name '"@ + name
        + "' is invalid, it contains a character outside of _,-,a-z,A-Z,0-9"@
}

/// Description of an export name with no matching item.
pub open spec fn export_not_found_desc(name: Seq<char>) -> Seq<char> {
    "could not find export item '"@ + name + "'"@
}

/// Description of a boundary-path segment that matches no partition.
pub open spec fn no_partition_desc(segment: Seq<char>) -> Seq<char> {
    segment + " does not match any partitions"@
}

/// Description of a malformed (or empty) glob pattern.
pub open spec fn invalid_glob_desc() -> Seq<char> {
    "invalid glob pattern"@
}

impl Error {
    /// Render the error as the single-line report shown to a user.
    pub fn render(&self) -> (r: String)
        ensures
            r@ == rendered(*self),
    {
        let mut s: String = match self.cat {
            Category::Definitions => String::from_str("Definition Error: "),
            Category::Parsing => String::from_str("Parsing Error: "),
        };
        s.append(self.desc.as_str());
        s.append("\n");
        s
    }

    /// A duplicate declaration of `kind` (a type or an impl) named `name`.
    pub fn item_already_defined(kind: &str, name: &str) -> (e: Error)
        ensures
            e.cat == Category::Definitions,
            e.desc@ == dup_item_desc(kind@, name@),
            e.help_msg is None,
            e.hard,
    {
        let mut desc = String::from_str("the ");
        desc.append(kind);
        desc.append(" '");
        desc.append(name);
        desc.append("' is already defined");
        Error { cat: Category::Definitions, desc, help_msg: None, hard: true }
    }

    /// A partition name that is the empty string.
    pub fn empty_part_name() -> (e: Error)
        ensures
            e.cat == Category::Definitions,
            e.desc@ == empty_part_name_desc(),
            e.help_msg is None,
            !e.hard,
    {
        Error {
            cat: Category::Definitions,
            desc: String::from_str("partition boundary names cannot be empty"),
            help_msg: None,
            hard: false,
        }
    }

    /// A partition name whose first character is not `_` or an ASCII letter.
    pub fn invalid_part_name_start(name: &str) -> (e: Error)
        ensures
            e.cat == Category::Definitions,
            e.desc@ == invalid_start_desc(name@),
            e.help_msg is None,
            !e.hard,
    {
        let mut desc = String::from_str("partition name '");
        desc.append(name);
        desc.append("' is invalid, must start with _,a-z,A-Z");
        Error { cat: Category::Definitions, desc, help_msg: None, hard: false }
    }

    /// A partition name with a disallowed character after a valid start.
    pub fn invalid_part_name_char(name: &str) -> (e: Error)
        ensures
            e.cat == Category::Definitions,
            e.desc@ == invalid_char_desc(name@),
            e.help_msg is None,
            !e.hard,
    {
        let mut desc = String::from_str("partition name '");
        desc.append(name);
        desc.append("' is invalid, it contains a character outside of _,-,a-z,A-Z,0-9");
        Error { cat: Category::Definitions, desc, help_msg: None, hard: false }
    }

    /// An export directive naming an item that does not exist under its
    /// boundary.
    pub fn export_not_found(name: &str) -> (e: Error)
        ensures
            e.cat == Category::Definitions,
            e.desc@ == export_not_found_desc(name@),
            e.help_msg is None,
            !e.hard,
    {
        let mut desc = String::from_str("could not find export item '");
        desc.append(name);
        desc.append("'");
        Error { cat: Category::Definitions, desc, help_msg: None, hard: false }
    }

    /// A boundary-path segment that resolves to no partition. `help_msg`
    /// optionally carries a ranked "did you mean" suggestion list.
    pub fn no_matching_partition(segment: &str, help_msg: Option<String>) -> (e: Error)
        ensures
            e.cat == Category::Definitions,
            e.desc@ == no_partition_desc(segment@),
            e.help_msg == help_msg,
            e.hard,
    {
        let mut desc = String::from_str(segment);
        desc.append(" does not match any partitions");
        Error { cat: Category::Definitions, desc, help_msg, hard: true }
    }

    /// A glob pattern that is empty or that the pattern parser refuses.
    pub fn invalid_glob() -> (e: Error)
        ensures
            e.cat == Category::Parsing,
            e.desc@ == invalid_glob_desc(),
            e.help_msg is None,
            e.hard,
    {
        Error {
            cat: Category::Parsing,
            desc: String::from_str("invalid glob pattern"),
            help_msg: None,
            hard: true,
        }
    }
}

} // verus!
