//! What can be wrong with a directory or with a request to it.
use crate::consts::{MINI_SECTOR_LEN, ROOT_DIR_NAME};
use vstd::prelude::*;
use vstd::string::*;

verus! {

/// The texts of a list of owned strings.
pub open spec fn texts(strings: Seq<String>) -> Seq<Seq<char>> {
    strings.map_values(|s: String| s@)
}

/// The broad kind of an error.
#[derive(Clone, Copy, Debug, PartialEq, Eq, Structural)]
pub enum ErrorKind {
    /// The data of the file is malformed.
    InvalidData,
    /// There is no such object.
    NotFound,
    /// The request makes no sense for this directory.
    InvalidInput,
}

/// What is wrong with a directory or with a request to it.
#[derive(Debug)]
pub enum Error {
    /// The root entry does not have the name that the format fixes.
    RootName { name: String },
    /// The length of the root stream is no multiple of the mini sector length.
    RootStreamLen { stream_len: u64 },
    /// The links lead twice to one entry.
    TreeLoop,
    /// The root entry does not have the object type of a root.
    RootType { obj_type: u8 },
    /// An entry below the root is neither a storage nor a stream.
    NonRootType { obj_type: u8 },
    /// A red tree node hangs from a red one.
    TwoRedNodes,
    /// A left link leads to no entry.
    LeftSiblingIndex { index: u32, count: usize },
    /// A right link leads to no entry.
    RightSiblingIndex { index: u32, count: usize },
    /// A child link leads to no entry.
    ChildIndex { index: u32, count: usize },
    /// A sibling does not stand on its side of the entry that links to it.
    NamesOutOfOrder { name: String, sibling: String },
    /// The file allocation table does not account for its own sectors.
    AllocationTable,
    /// The path has a prefix.
    PathPrefix,
    /// The path leads above the root.
    PathAboveRoot,
    /// The path is not valid Unicode.
    PathNotUnicode,
    /// There is no storage at the end of this chain of names.
    NoSuchStorage { names: Vec<String> },
    /// At the end of this chain of names there is a stream.
    NotAStorage { names: Vec<String> },
    /// There is no object at the end of this chain of names.
    NoSuchObject { names: Vec<String> },
}

/// The model of [`Error`].
pub enum ErrorView {
    RootName { name: Seq<char> },
    RootStreamLen { stream_len: u64 },
    TreeLoop,
    RootType { obj_type: u8 },
    NonRootType { obj_type: u8 },
    TwoRedNodes,
    LeftSiblingIndex { index: u32, count: int },
    RightSiblingIndex { index: u32, count: int },
    ChildIndex { index: u32, count: int },
    NamesOutOfOrder { name: Seq<char>, sibling: Seq<char> },
    AllocationTable,
    PathPrefix,
    PathAboveRoot,
    PathNotUnicode,
    NoSuchStorage { names: Seq<Seq<char>> },
    NotAStorage { names: Seq<Seq<char>> },
    NoSuchObject { names: Seq<Seq<char>> },
}

impl View for Error {
    type V = ErrorView;

    open spec fn view(&self) -> ErrorView {
        match *self {
            Error::RootName { name } => ErrorView::RootName { name: name@ },
            Error::RootStreamLen { stream_len } => ErrorView::RootStreamLen { stream_len },
            Error::TreeLoop => ErrorView::TreeLoop,
            Error::RootType { obj_type } => ErrorView::RootType { obj_type },
            Error::NonRootType { obj_type } => ErrorView::NonRootType { obj_type },
            Error::TwoRedNodes => ErrorView::TwoRedNodes,
            Error::LeftSiblingIndex { index, count } => ErrorView::LeftSiblingIndex {
                index,
                count: count as int,
            },
            Error::RightSiblingIndex { index, count } => ErrorView::RightSiblingIndex {
                index,
                count: count as int,
            },
            Error::ChildIndex { index, count } => ErrorView::ChildIndex {
                index,
                count: count as int,
            },
            Error::NamesOutOfOrder { name, sibling } => ErrorView::NamesOutOfOrder {
                name: name@,
                sibling: sibling@,
            },
            Error::AllocationTable => ErrorView::AllocationTable,
            Error::PathPrefix => ErrorView::PathPrefix,
            Error::PathAboveRoot => ErrorView::PathAboveRoot,
            Error::PathNotUnicode => ErrorView::PathNotUnicode,
            Error::NoSuchStorage { names } => ErrorView::NoSuchStorage { names: texts(names@) },
            Error::NotAStorage { names } => ErrorView::NotAStorage { names: texts(names@) },
            Error::NoSuchObject { names } => ErrorView::NoSuchObject { names: texts(names@) },
        }
    }
}

impl ErrorView {
    /// The broad kind of the error.
    pub open spec fn kind_of(self) -> ErrorKind {
        match self {
            ErrorView::PathPrefix
            | ErrorView::PathAboveRoot
            | ErrorView::PathNotUnicode
            | ErrorView::NotAStorage { .. } => ErrorKind::InvalidInput,
            ErrorView::NoSuchStorage { .. } | ErrorView::NoSuchObject { .. } => ErrorKind::NotFound,
            _ => ErrorKind::InvalidData,
        }
    }
}

impl Error {
    /// Returns the broad kind of the error: malformed data for whatever
    /// validation finds, not found for a chain of names that leads nowhere, and
    /// invalid input for a path that is refused or leads to a stream.
    pub fn kind(&self) -> (kind: ErrorKind)
        ensures
            kind == self@.kind_of(),
    {
        match self {
            Error::PathPrefix | Error::PathAboveRoot | Error::PathNotUnicode => ErrorKind::InvalidInput,
            Error::NotAStorage { .. } => ErrorKind::InvalidInput,
            Error::NoSuchStorage { .. } | Error::NoSuchObject { .. } => ErrorKind::NotFound,
            _ => ErrorKind::InvalidData,
        }
    }
}

/// The text of a text in quotes, with special characters escaped, as the `Debug`
/// form of `str` gives it.
pub uninterp spec fn debug_text(text: Seq<char>) -> Seq<char>;

/// Calls `format!` for the `Debug` form of a `str`, whose result is named by
/// [`debug_text`].
#[verifier::external_body]
fn quoted(text: &str) -> (out: String)
    ensures
        out@ == debug_text(text@),
{
    format!("{:?}", text)
}

/// The text of a path in quotes, with special characters escaped, as the `Debug` form
/// of `std::path::Path` gives it.
pub uninterp spec fn path_debug_text(text: Seq<char>) -> Seq<char>;

/// Calls `format!` for the `Debug` form of a `std::path::Path` made of a text, whose
/// result is named by [`path_debug_text`].
#[verifier::external_body]
fn quoted_path(text: &str) -> (out: String)
    ensures
        out@ == path_debug_text(text@),
{
    format!("{:?}", std::path::Path::new(text))
}

/// The decimal digit `d`.
pub open spec fn digit(d: nat) -> char {
    (48 + d) as char
}

/// A number in decimal digits.
pub open spec fn decimal(n: nat) -> Seq<char>
    decreases n,
{
    if n < 10 {
        seq![digit(n)]
    } else {
        decimal(n / 10).push(digit(n % 10))
    }
}

/// Returns a decimal digit as a text.
fn digit_text(d: u64) -> (text: &'static str)
    requires
        d < 10,
    ensures
        text@ == seq![digit(d as nat)],
{
    proof {
        reveal_strlit("0");
        reveal_strlit("1");
        reveal_strlit("2");
        reveal_strlit("3");
        reveal_strlit("4");
        reveal_strlit("5");
        reveal_strlit("6");
        reveal_strlit("7");
        reveal_strlit("8");
        reveal_strlit("9");
    }
    let text: &'static str = match d {
        0 => "0",
        1 => "1",
        2 => "2",
        3 => "3",
        4 => "4",
        5 => "5",
        6 => "6",
        7 => "7",
        8 => "8",
        _ => "9",
    };
    assert(text@ =~= seq![digit(d as nat)]);
    text
}

/// Appends a number in decimal digits.
fn append_number(out: &mut String, n: u64)
    ensures
        final(out)@ == old(out)@ + decimal(n as nat),
    decreases n,
{
    if n >= 10 {
        append_number(out, n / 10);
    }
    out.append(digit_text(n % 10));
    proof {
        if n >= 10 {
            assert(out@ =~= old(out)@ + decimal((n / 10) as nat).push(digit((n % 10) as nat)));
        }
    }
}

/// A chain of names as the text of a path from the root.
pub open spec fn path_text(names: Seq<Seq<char>>) -> Seq<char>
    decreases names.len(),
{
    if names.len() == 0 {
        "/"@
    } else if names.len() == 1 {
        "/"@ + names[0]
    } else {
        path_text(names.drop_last()) + "/"@ + names.last()
    }
}

/// Returns a chain of names as the text of a path from the root.
fn path_from_names(names: &Vec<String>) -> (text: String)
    ensures
        text@ == path_text(texts(names@)),
{
    let ghost chain = texts(names@);
    let mut text: String = "/".to_owned();
    let mut i: usize = 0;
    assert(chain.take(0) =~= Seq::<Seq<char>>::empty());
    while i < names.len()
        invariant
            i <= names@.len(),
            chain == texts(names@),
            text@ == path_text(chain.take(i as int)),
        decreases names@.len() - i,
    {
        proof {
            assert(chain.take(i + 1).drop_last() =~= chain.take(i as int));
            assert(chain.take(i + 1).last() == names@[i as int]@);
            assert(chain.take(i + 1)[0] == names@[0]@);
        }
        if i > 0 {
            text.append("/");
        }
        text.append(names[i].as_str());
        i += 1;
    }
    assert(chain.take(i as int) =~= chain);
    text
}

/// What is said of a malformed directory.
pub open spec fn malformed(detail: Seq<char>) -> Seq<char> {
    "Malformed directory ("@ + detail + ")"@
}

/// What is said of a link that leads to no entry.
pub open spec fn index_detail(subject: Seq<char>, index: nat, count: nat) -> Seq<char> {
    subject + " index is "@ + decimal(index) + ", but directory entry count is "@ + decimal(count)
}

impl ErrorView {
    /// The error in words.
    pub open spec fn text(self) -> Seq<char> {
        match self {
            ErrorView::RootName { name } => malformed(
                "root entry name is "@ + debug_text(name) + ", but should be "@ + debug_text(
                    ROOT_DIR_NAME@,
                ),
            ),
            ErrorView::RootStreamLen { stream_len } => malformed(
                "root stream len is "@ + decimal(stream_len as nat)
                    + ", but should be multiple of "@ + decimal(MINI_SECTOR_LEN as nat),
            ),
            ErrorView::TreeLoop => malformed("loop in tree"@),
            ErrorView::RootType { obj_type } => malformed(
                "wrong object type for root entry: "@ + decimal(obj_type as nat),
            ),
            ErrorView::NonRootType { obj_type } => malformed(
                "wrong object type for non-root entry: "@ + decimal(obj_type as nat),
            ),
            ErrorView::TwoRedNodes => malformed("two red nodes in a row"@),
            ErrorView::LeftSiblingIndex { index, count } => malformed(
                index_detail("left sibling"@, index as nat, count as nat),
            ),
            ErrorView::RightSiblingIndex { index, count } => malformed(
                index_detail("right sibling"@, index as nat, count as nat),
            ),
            ErrorView::ChildIndex { index, count } => malformed(
                index_detail("child"@, index as nat, count as nat),
            ),
            ErrorView::NamesOutOfOrder { name, sibling } => malformed(
                "name ordering, "@ + debug_text(name) + " vs "@ + debug_text(sibling),
            ),
            ErrorView::AllocationTable => "Malformed FAT (it does not account for itself)"@,
            ErrorView::PathPrefix => "Invalid path (must not have prefix)"@,
            ErrorView::PathAboveRoot => "Invalid path (must be within root)"@,
            ErrorView::PathNotUnicode => "Invalid path (must be valid Unicode)"@,
            ErrorView::NoSuchStorage { names } => "No such storage: "@ + path_debug_text(path_text(names)),
            ErrorView::NotAStorage { names } => "Not a storage: "@ + path_debug_text(path_text(names)),
            ErrorView::NoSuchObject { names } => "No such object: "@ + path_debug_text(path_text(names)),
        }
    }
}

/// Returns what is said of a malformed directory.
fn malformed_text(detail: &str) -> (text: String)
    ensures
        text@ == malformed(detail@),
{
    let mut text: String = "Malformed directory (".to_owned();
    text.append(detail);
    text.append(")");
    text
}

/// Returns what is said of a link that leads to no entry.
fn index_text(subject: &str, index: u32, count: usize) -> (text: String)
    ensures
        text@ == malformed(index_detail(subject@, index as nat, count as nat)),
{
    let mut detail: String = subject.to_owned();
    detail.append(" index is ");
    append_number(&mut detail, index as u64);
    detail.append(", but directory entry count is ");
    append_number(&mut detail, count as u64);
    malformed_text(detail.as_str())
}

/// Returns two texts as one.
fn joined_text(first: &str, second: &str) -> (text: String)
    ensures
        text@ == first@ + second@,
{
    let mut text: String = first.to_owned();
    text.append(second);
    text
}

impl Error {
    /// Returns the error in words.
    pub fn message(&self) -> (message: String)
        ensures
            message@ == self@.text(),
    {
        match self {
            Error::RootName { name } => {
                let mut detail: String = "root entry name is ".to_owned();
                detail.append(quoted(name.as_str()).as_str());
                detail.append(", but should be ");
                detail.append(quoted(ROOT_DIR_NAME).as_str());
                malformed_text(detail.as_str())
            },
            Error::RootStreamLen { stream_len } => {
                let mut detail: String = "root stream len is ".to_owned();
                append_number(&mut detail, *stream_len);
                detail.append(", but should be multiple of ");
                append_number(&mut detail, MINI_SECTOR_LEN as u64);
                malformed_text(detail.as_str())
            },
            Error::TreeLoop => malformed_text("loop in tree"),
            Error::RootType { obj_type } => {
                let mut detail: String = "wrong object type for root entry: ".to_owned();
                append_number(&mut detail, *obj_type as u64);
                malformed_text(detail.as_str())
            },
            Error::NonRootType { obj_type } => {
                let mut detail: String = "wrong object type for non-root entry: ".to_owned();
                append_number(&mut detail, *obj_type as u64);
                malformed_text(detail.as_str())
            },
            Error::TwoRedNodes => malformed_text("two red nodes in a row"),
            Error::LeftSiblingIndex { index, count } => index_text("left sibling", *index, *count),
            Error::RightSiblingIndex { index, count } => index_text("right sibling", *index, *count),
            Error::ChildIndex { index, count } => index_text("child", *index, *count),
            Error::NamesOutOfOrder { name, sibling } => {
                let mut detail: String = "name ordering, ".to_owned();
                detail.append(quoted(name.as_str()).as_str());
                detail.append(" vs ");
                detail.append(quoted(sibling.as_str()).as_str());
                malformed_text(detail.as_str())
            },
            Error::AllocationTable => "Malformed FAT (it does not account for itself)".to_owned(),
            Error::PathPrefix => "Invalid path (must not have prefix)".to_owned(),
            Error::PathAboveRoot => "Invalid path (must be within root)".to_owned(),
            Error::PathNotUnicode => "Invalid path (must be valid Unicode)".to_owned(),
            Error::NoSuchStorage { names } => joined_text(
                "No such storage: ",
                quoted_path(path_from_names(names).as_str()).as_str(),
            ),
            Error::NotAStorage { names } => joined_text(
                "Not a storage: ",
                quoted_path(path_from_names(names).as_str()).as_str(),
            ),
            Error::NoSuchObject { names } => joined_text(
                "No such object: ",
                quoted_path(path_from_names(names).as_str()).as_str(),
            ),
        }
    }
}

} // verus!
