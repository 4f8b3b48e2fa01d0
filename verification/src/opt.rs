//! Options used by the main executable: the bare shapes of the command
//! line, free of any argument-parsing machinery, and the shell-name
//! parser.

use vstd::prelude::*;

verus! {

/// Top-level options.
pub struct Opts {
    /// Where to start looking for files; the current directory otherwise.
    pub dir: Option<String>,
    /// Maximum recursion depth of the filesystem traversal.
    pub max_depth: Option<usize>,
    /// Suppresses colored output.
    pub no_color: bool,
    /// The subcommand to run.
    pub cmd: Command,
}

/// What to list.
pub enum ListObject {
    Tags,
    Files {
        /// Whether the tags of each entry should be displayed.
        with_tags: bool,
    },
}

/// Options of the listing subcommand.
pub struct ListOpts {
    /// The object to list.
    pub object: ListObject,
    /// Raw output, for piping.
    pub raw: bool,
}

/// Options of the tagging subcommand.
pub struct SetOpts {
    /// A glob pattern for the files to tag.
    pub pattern: String,
    /// The tags to apply.
    pub tags: Vec<String>,
}

/// Options of the untagging subcommand.
pub struct RmOpts {
    /// A glob pattern for the files to untag.
    pub pattern: String,
    /// The tags to remove.
    pub tags: Vec<String>,
}

/// Options of the clearing subcommand.
pub struct ClearOpts {
    /// A glob pattern for the files to clear.
    pub pattern: String,
}

/// Options of the search subcommand.
pub struct SearchOpts {
    /// The tags to search for.
    pub tags: Vec<String>,
    /// Raw output, for piping.
    pub raw: bool,
    /// Whether entries with any of the tags are returned.
    pub any: bool,
}

/// Options of the tag-copying subcommand.
pub struct CpOpts {
    /// The file whose tags are copied.
    pub input_path: String,
    /// A glob pattern for the files to copy them to.
    pub pattern: String,
}

/// Options of the tag-editing subcommand.
pub struct EditOpts {
    /// The tag to edit.
    pub tag: String,
    /// The color to set, as hex text.
    pub color: String,
}

/// A shell for which completions can be printed.
#[derive(Clone, Copy, Debug, PartialEq, Eq, Structural)]
pub enum Shell {
    Bash,
    Elvish,
    Fish,
    PowerShell,
    Zsh,
}

/// Options of the completions subcommand.
pub struct CompletionsOpts {
    /// The shell to print completions for.
    pub shell: Shell,
}

/// The subcommands.
pub enum Command {
    /// Lists all available tags or files.
    List(ListOpts),
    /// Tags the files that match the given pattern.
    SetTags(SetOpts),
    /// Removes tags from the files that match the pattern.
    Rm(RmOpts),
    /// Clears all tags of the files that match the pattern.
    Clear(ClearOpts),
    /// Searches for files that have the provided tags.
    Search(SearchOpts),
    /// Copies tags from one file to files matching a pattern.
    Cp(CpOpts),
    /// Edits a tag.
    Edit(EditOpts),
    /// Prints completions for the specified shell.
    PrintCompletions(CompletionsOpts),
    /// Cleans the cached tag registry.
    CleanCache,
}

/// The character's code with an ASCII capital folded to lower case.
pub open spec fn lower_code(c: char) -> int {
    if 65 <= c as u32 && c as u32 <= 90 {
        c as u32 + 32
    } else {
        c as u32 as int
    }
}

/// The case-folded codes of a text.
pub open spec fn folded(s: Seq<char>) -> Seq<int> {
    s.map_values(|c: char| lower_code(c))
}

/// Whether two texts agree up to ASCII case.
fn folded_eq(a: &str, b: &str) -> (r: bool)
    ensures
        r == (folded(a@) == folded(b@)),
{
    let la = a.unicode_len();
    let lb = b.unicode_len();
    if la != lb {
        proof {
            assert(folded(a@).len() != folded(b@).len());
        }
        return false;
    }
    let mut i: usize = 0;
    while i < la
        invariant
            0 <= i <= la,
            la == a@.len(),
            la == b@.len(),
            forall|j: int| 0 <= j < i ==> folded(a@)[j] == folded(b@)[j],
        decreases la - i,
    {
        let ca = a.get_char(i);
        let cb = b.get_char(i);
        let va = ca as u32;
        let vb = cb as u32;
        let fa = if 65 <= va && va <= 90 {
            va + 32
        } else {
            va
        };
        let fb = if 65 <= vb && vb <= 90 {
            vb + 32
        } else {
            vb
        };
        if fa != fb {
            proof {
                assert(folded(a@)[i as int] != folded(b@)[i as int]);
            }
            return false;
        }
        i += 1;
    }
    proof {
        assert(folded(a@) =~= folded(b@));
    }
    true
}

impl Shell {
    /// Parses a shell name, ignoring ASCII case; an unknown name gives
    /// nothing.
    pub fn from_name(s: &str) -> (r: Option<Shell>)
        ensures
            (r == Some(Shell::Bash)) == (folded(s@) == folded("bash"@)),
            (r == Some(Shell::Elvish)) == (folded(s@) == folded("elvish"@)),
            (r == Some(Shell::Fish)) == (folded(s@) == folded("fish"@)),
            (r == Some(Shell::PowerShell)) == (folded(s@) == folded("powershell"@)),
            (r == Some(Shell::Zsh)) == (folded(s@) == folded("zsh"@)),
            r is None ==> folded(s@) != folded("bash"@) && folded(s@) != folded("elvish"@)
                && folded(s@) != folded("fish"@) && folded(s@) != folded("powershell"@) && folded(
                s@,
            ) != folded("zsh"@),
    {
        proof {
            reveal_strlit("bash");
            reveal_strlit("elvish");
            reveal_strlit("fish");
            reveal_strlit("powershell");
            reveal_strlit("zsh");
        }
        if folded_eq(s, "bash") {
            proof {
                assert(folded("bash"@)[0] != folded("elvish"@)[0]);
                assert(folded("bash"@)[0] != folded("fish"@)[0]);
                assert(folded("bash"@)[0] != folded("powershell"@)[0]);
                assert(folded("bash"@)[0] != folded("zsh"@)[0]);
            }
            Some(Shell::Bash)
        } else if folded_eq(s, "elvish") {
            proof {
                assert(folded("elvish"@)[0] != folded("fish"@)[0]);
                assert(folded("elvish"@)[0] != folded("powershell"@)[0]);
                assert(folded("elvish"@)[0] != folded("zsh"@)[0]);
            }
            Some(Shell::Elvish)
        } else if folded_eq(s, "fish") {
            proof {
                assert(folded("fish"@)[0] != folded("powershell"@)[0]);
                assert(folded("fish"@)[0] != folded("zsh"@)[0]);
            }
            Some(Shell::Fish)
        } else if folded_eq(s, "powershell") {
            proof {
                assert(folded("powershell"@)[0] != folded("zsh"@)[0]);
            }
            Some(Shell::PowerShell)
        } else if folded_eq(s, "zsh") {
            Some(Shell::Zsh)
        } else {
            None
        }
    }
}

impl core::str::FromStr for Shell {
    type Err = String;

    fn from_str(s: &str) -> Result<Shell, String> {
        match Shell::from_name(s) {
            Some(sh) => Ok(sh),
            None => Err(
                vstd::string::StringExecFns::concat(
                    vstd::string::StringExecFns::concat("invalid shell `".to_owned(), s),
                    "`",
                ),
            ),
        }
    }
}

} // verus!
