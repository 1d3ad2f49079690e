//! Deciding which directory entries are searched.

use crate::highlight;
use crate::highlight::highlight_all;
use crate::matching;
use crate::matching::contains_pattern;
use crate::options;
use crate::options::{CmdOption, CmdOptions};
use crate::paint;
use crate::paint::{Color, Switch};
use crate::text::same_text;
use vstd::prelude::*;
use vstd::string::*;
use vstd::utf8::*;

verus! {

/// On Windows, the attribute of a hidden file.
pub const FILE_ATTRIBUTE_HIDDEN: u32 = 0x2;

/// On Windows, the attribute of every kind of link.
pub const FILE_ATTRIBUTE_REPARSE_POINT: u32 = 0x400;

/// On Windows, the attribute of content that is kept elsewhere.
pub const FILE_ATTRIBUTE_OFFLINE: u32 = 0x1000;

/// On Windows, the attribute of content that is fetched when the file is opened.
pub const FILE_ATTRIBUTE_RECALL_ON_OPEN: u32 = 0x40000;

/// On Windows, the attribute of content that is fetched when it is read.
pub const FILE_ATTRIBUTE_RECALL_ON_DATA_ACCESS: u32 = 0x400000;

/// What the file system tells of an entry itself, without following links.
#[derive(Debug, PartialEq, Eq, Clone, Copy, Structural)]
pub enum Metadata {
    /// The attribute bits that Windows keeps.
    Windows(u32),
    /// Whether the entry is a symbolic link, on other systems.
    Other(bool),
    /// It could not be read.
    Unknown,
}

/// An entry of a directory.
pub struct Entry {
    pub name: String,
    pub path: String,
    pub metadata: Metadata,
    /// Whether the entry is a directory, where that is known.
    pub is_dir: Option<bool>,
}

/// Whether an entry is a link.
pub open spec fn symlink(metadata: Metadata) -> bool {
    match metadata {
        Metadata::Windows(attributes) => attributes & FILE_ATTRIBUTE_REPARSE_POINT != 0,
        Metadata::Other(link) => link,
        Metadata::Unknown => false,
    }
}

/// Whether an entry is hidden: by a name that begins with a dot, or by its attribute.
pub open spec fn hidden(name: Seq<char>, metadata: Metadata) -> bool {
    ||| name.len() > 0 && name[0] == '.'
    ||| metadata matches Metadata::Windows(attributes) && attributes & FILE_ATTRIBUTE_HIDDEN != 0
}

/// Whether the content of an entry is kept elsewhere and would be fetched.
pub open spec fn cloud_placeholder(metadata: Metadata) -> bool {
    metadata matches Metadata::Windows(attributes) && attributes & (
    FILE_ATTRIBUTE_RECALL_ON_DATA_ACCESS | FILE_ATTRIBUTE_RECALL_ON_OPEN | FILE_ATTRIBUTE_OFFLINE)
        != 0
}

/// The names of directories with build results and dependencies.
pub open spec fn excluded_name(name: Seq<char>) -> bool {
    ||| name == "target"@
    ||| name == "node_modules"@
    ||| name == "dist"@
    ||| name == "build"@
    ||| name == "out"@
    ||| name == "bin"@
    ||| name == "obj"@
    ||| name == "vendor"@
    ||| name == "__pycache__"@
    ||| name == "venv"@
    ||| name == "env"@
}

/// Whether an entry is a directory with build results or dependencies.
pub open spec fn excluded_dir(name: Seq<char>, is_dir: Option<bool>) -> bool {
    is_dir == Some(true) && excluded_name(name)
}

/// Whether an entry is left out of the search: a link always, a hidden entry unless `Hidden` is
/// granted, an excluded directory or content kept elsewhere unless `Excluded` is granted.
pub open spec fn skipped(entry: Entry, granted: Seq<CmdOption>) -> bool {
    ||| symlink(entry.metadata)
    ||| !options::granted(granted, CmdOption::Hidden) && hidden(entry.name@, entry.metadata)
    ||| !options::granted(granted, CmdOption::Excluded) && (excluded_dir(
        entry.name@,
        entry.is_dir,
    ) || cloud_placeholder(entry.metadata))
}

/// Whether an entry is hidden.
pub fn is_hidden(entry: &Entry) -> (r: bool)
    ensures
        r == hidden(entry.name@, entry.metadata),
{
    if !entry.name.as_str().is_empty() && entry.name.as_str().get_char(0) == '.' {
        return true;
    }
    match entry.metadata {
        Metadata::Windows(attributes) => attributes & FILE_ATTRIBUTE_HIDDEN != 0,
        _ => false,
    }
}

/// Whether an entry is a link.
pub fn is_symlink(entry: &Entry) -> (r: bool)
    ensures
        r == symlink(entry.metadata),
{
    match entry.metadata {
        Metadata::Windows(attributes) => attributes & FILE_ATTRIBUTE_REPARSE_POINT != 0,
        Metadata::Other(link) => link,
        Metadata::Unknown => false,
    }
}

/// Whether an entry is a directory with build results or dependencies.
pub fn is_excluded_dir(entry: &Entry) -> (r: bool)
    ensures
        r == excluded_dir(entry.name@, entry.is_dir),
        r <==> entry.is_dir == Some(true) && seq![
            "target"@,
            "node_modules"@,
            "dist"@,
            "build"@,
            "out"@,
            "bin"@,
            "obj"@,
            "vendor"@,
            "__pycache__"@,
            "venv"@,
            "env"@,
        ].contains(entry.name@),
{
    proof {
        lemma_excluded_names(entry.name@, entry.is_dir);
    }
    let is_dir: bool = match entry.is_dir {
        Some(is_dir) => is_dir,
        None => false,
    };
    if !is_dir {
        return false;
    }
    let name: &str = entry.name.as_str();
    same_text(name, "target") || same_text(name, "node_modules") || same_text(name, "dist")
        || same_text(name, "build") || same_text(name, "out") || same_text(name, "bin")
        || same_text(name, "obj") || same_text(name, "vendor") || same_text(name, "__pycache__")
        || same_text(name, "venv") || same_text(name, "env")
}

/// Whether the content of an entry is kept elsewhere and would be fetched.
pub fn is_cloud_placeholder(entry: &Entry) -> (r: bool)
    ensures
        r == cloud_placeholder(entry.metadata),
{
    match entry.metadata {
        Metadata::Windows(attributes) => attributes & (FILE_ATTRIBUTE_RECALL_ON_DATA_ACCESS
            | FILE_ATTRIBUTE_RECALL_ON_OPEN | FILE_ATTRIBUTE_OFFLINE) != 0,
        _ => false,
    }
}

/// Whether an entry is left out of the search.
pub fn is_skipped(entry: &Entry, options: &CmdOptions) -> (r: bool)
    ensures
        r == skipped(*entry, options.options@),
{
    if is_symlink(entry) {
        return true;
    }
    if !options.has(CmdOption::Hidden) && is_hidden(entry) {
        return true;
    }
    !options.has(CmdOption::Excluded) && (is_excluded_dir(entry) || is_cloud_placeholder(entry))
}

/// What to do with an entry.
#[derive(Debug)]
pub enum Visit {
    /// Leave it out.
    Skip,
    /// Print the path, where the name holds a match, and then search the entry.
    Enter(Option<String>),
}

/// Decides what to do with an entry of a directory.
pub fn handle_entry(entry: &Entry, pattern: &str, options: &CmdOptions) -> (r: Visit)
    requires
        pattern@.len() > 0 || skipped(*entry, options.options@),
    ensures
        r is Skip <==> skipped(*entry, options.options@),
        r matches Visit::Enter(found) ==> {
            let case_sensitive = options::granted(options.options@, CmdOption::CaseSensitive);
            &&& found is Some <==> matching::first_match(
                encode_utf8(entry.name@),
                pattern.spec_bytes(),
                case_sensitive,
            ) is Some
            &&& found matches Some(out) ==> highlight::is_highlighting(
                encode_utf8(entry.path@),
                pattern.spec_bytes(),
                Color::Cyan,
                case_sensitive,
                paint::process_switch(),
                out@,
            )
            &&& found matches Some(out) ==> highlight::is_highlighting(
                encode_utf8(entry.path@),
                pattern.spec_bytes(),
                Color::Cyan,
                case_sensitive,
                Switch::Turning,
                out@,
            )
        },
{
    if is_skipped(entry, options) {
        return Visit::Skip;
    }
    let case_sensitive: bool = options.has(CmdOption::CaseSensitive);
    if contains_pattern(entry.name.as_str(), pattern, case_sensitive) {
        return Visit::Enter(
            Some(highlight_all(entry.path.as_str(), pattern, Color::Cyan, case_sensitive)),
        );
    }
    Visit::Enter(None)
}

/// A path that is printed for the name of its entry shows why: where the name holds the keyword
/// and the path ends with the name, part of the path is shown as a match.
pub proof fn lemma_printed_path_shows_match(
    dir: Seq<u8>,
    name: Seq<u8>,
    pat: Seq<u8>,
    case_sensitive: bool,
)
    requires
        pat.len() > 0,
        matching::first_match(name, pat, case_sensitive) is Some,
    ensures
        exists|i: int|
            0 <= i < highlight::parts_of(dir + name, pat, case_sensitive).len() && (
            #[trigger] highlight::parts_of(dir + name, pat, case_sensitive)[i]).0,
{
    matching::lemma_first_match_spec(name, pat, case_sensitive);
    let i = matching::first_match(name, pat, case_sensitive)->0;
    let path = dir + name;
    let j = dir.len() + i;
    assert forall|k: int| 0 <= k < pat.len() implies matching::same_byte(
        path[j + k],
        #[trigger] pat[k],
        case_sensitive,
    ) by {
        assert(path[j + k] == name[i + k]);
        assert(matching::same_byte(name[i + k], pat[k], case_sensitive));
    }
    matching::lemma_first_match(path, pat, case_sensitive, j);
    highlight::lemma_match_shown(path, pat, case_sensitive);
}

/// An option only widens the search: what is searched with some options is searched with one more.
pub proof fn lemma_options_widen(entry: Entry, granted: Seq<CmdOption>, more: CmdOption)
    requires
        !skipped(entry, granted),
    ensures
        !skipped(entry, granted.push(more)),
{
    assert forall|o: CmdOption| granted.contains(o) implies granted.push(more).contains(o) by {
        let k = choose|k: int| 0 <= k < granted.len() && granted[k] == o;
        assert(granted.push(more)[k] == o);
    }
}

/// With `All`, links are left out and nothing else is.
pub proof fn lemma_all_searches_everything(entry: Entry, granted: Seq<CmdOption>)
    requires
        granted.contains(CmdOption::All),
    ensures
        skipped(entry, granted) == symlink(entry.metadata),
{
}

/// A directory is excluded by its name alone, and by one of eleven names.
pub proof fn lemma_excluded_names(name: Seq<char>, is_dir: Option<bool>)
    ensures
        excluded_dir(name, is_dir) <==> is_dir == Some(true) && seq![
            "target"@,
            "node_modules"@,
            "dist"@,
            "build"@,
            "out"@,
            "bin"@,
            "obj"@,
            "vendor"@,
            "__pycache__"@,
            "venv"@,
            "env"@,
        ].contains(name),
{
    let names = seq![
        "target"@,
        "node_modules"@,
        "dist"@,
        "build"@,
        "out"@,
        "bin"@,
        "obj"@,
        "vendor"@,
        "__pycache__"@,
        "venv"@,
        "env"@,
    ];
    assert(names[0] == "target"@ && names[1] == "node_modules"@ && names[2] == "dist"@);
    assert(names[3] == "build"@ && names[4] == "out"@ && names[5] == "bin"@);
    assert(names[6] == "obj"@ && names[7] == "vendor"@ && names[8] == "__pycache__"@);
    assert(names[9] == "venv"@ && names[10] == "env"@);
}

/// What the attributes of Windows tell, bit by bit: the second bit that an entry is hidden, the
/// eleventh that it is a link, and any of three others that its content is kept elsewhere.
pub proof fn lemma_attributes(name: Seq<char>, attributes: u32)
    ensures
        symlink(Metadata::Windows(attributes)) <==> attributes / 0x400 % 2 == 1,
        hidden(name, Metadata::Windows(attributes)) <==> (name.len() > 0 && name[0] == '.')
            || attributes / 0x2 % 2 == 1,
        cloud_placeholder(Metadata::Windows(attributes)) <==> attributes / 0x1000 % 2 == 1
            || attributes / 0x40000 % 2 == 1 || attributes / 0x400000 % 2 == 1,
{
    assert(attributes & 0x400 != 0 <==> attributes / 0x400 % 2 == 1) by (bit_vector);
    assert(attributes & 0x2 != 0 <==> attributes / 0x2 % 2 == 1) by (bit_vector);
    assert(attributes & (0x400000u32 | 0x40000u32 | 0x1000u32) != 0 <==> attributes / 0x1000 % 2
        == 1 || attributes / 0x40000 % 2 == 1 || attributes / 0x400000 % 2 == 1) by (bit_vector);
}

/// On other systems an entry is a link where it says so, hidden where its name begins with a dot,
/// and never kept elsewhere. Where nothing can be read of it, it is no link either.
pub proof fn lemma_no_attributes(name: Seq<char>, link: bool)
    ensures
        symlink(Metadata::Other(link)) == link,
        !symlink(Metadata::Unknown),
        hidden(name, Metadata::Other(link)) <==> name.len() > 0 && name[0] == '.',
        hidden(name, Metadata::Unknown) <==> name.len() > 0 && name[0] == '.',
        !cloud_placeholder(Metadata::Other(link)),
        !cloud_placeholder(Metadata::Unknown),
{
}

/// What is left out, and nothing else is: links; hidden entries, unless `Hidden` or `All` was
/// given; and excluded directories and content kept elsewhere, unless `Excluded` or `All` was.
pub proof fn lemma_skipped(entry: Entry, given: Seq<CmdOption>)
    ensures
        skipped(entry, given) <==> {
            ||| symlink(entry.metadata)
            ||| hidden(entry.name@, entry.metadata) && !given.contains(CmdOption::Hidden)
                && !given.contains(CmdOption::All)
            ||| (excluded_dir(entry.name@, entry.is_dir) || cloud_placeholder(entry.metadata))
                && !given.contains(CmdOption::Excluded) && !given.contains(CmdOption::All)
        },
{
}

/// An ordinary entry is searched whatever the options: one that is no link, whose name begins with
/// no dot, and that is no directory with one of the excluded names.
pub proof fn lemma_ordinary_entry_searched(entry: Entry, given: Seq<CmdOption>)
    requires
        entry.metadata == Metadata::Other(false),
        entry.name@.len() == 0 || entry.name@[0] != '.',
        entry.is_dir == Some(true) ==> !seq![
            "target"@,
            "node_modules"@,
            "dist"@,
            "build"@,
            "out"@,
            "bin"@,
            "obj"@,
            "vendor"@,
            "__pycache__"@,
            "venv"@,
            "env"@,
        ].contains(entry.name@),
    ensures
        !skipped(entry, given),
{
    lemma_excluded_names(entry.name@, entry.is_dir);
}

} // verus!
