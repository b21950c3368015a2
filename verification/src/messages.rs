//! What errors say.
use crate::error::{debug_text, decimal, path_debug_text, path_text, ErrorKind, ErrorView};
use vstd::prelude::*;

verus! {

/// The number that a text of decimal digits stands for.
pub open spec fn number_in(text: Seq<char>) -> int
    decreases text.len(),
{
    if text.len() == 0 {
        0
    } else {
        10 * number_in(text.drop_last()) + (text.last() as int - 48)
    }
}

/// A number in decimal digits can be read back, and does not begin with a zero unless it
/// is zero.
pub proof fn lemma_decimal_meaning(n: nat)
    ensures
        number_in(decimal(n)) == n,
        decimal(n).len() > 0,
        forall|i: int| 0 <= i < decimal(n).len() ==> 48 <= #[trigger] decimal(n)[i] as int <= 57,
        n > 0 ==> decimal(n)[0] as int != 48,
    decreases n,
{
    if n < 10 {
        let text = decimal(n);
        assert(text =~= seq![crate::error::digit(n)]);
        assert(text.drop_last() =~= Seq::<char>::empty());
        assert(number_in(text.drop_last()) == 0);
        assert(text.last() as int == 48 + n);
    } else {
        lemma_decimal_meaning(n / 10);
        let text = decimal(n);
        assert(text.drop_last() =~= decimal(n / 10));
        assert(text.last() as int == 48 + n % 10);
        assert(text[0] == decimal(n / 10)[0]);
        assert forall|i: int| 0 <= i < text.len() implies 48 <= #[trigger] text[i] as int <= 57 by {
            if i < text.len() - 1 {
                assert(text[i] == decimal(n / 10)[i]);
            }
        }
    }
}

/// The text of a path begins with a slash, and has one between any two names.
pub proof fn lemma_path_text_meaning(names: Seq<Seq<char>>, name: Seq<char>)
    ensures
        path_text(Seq::empty()) == "/"@,
        names.len() == 0 ==> path_text(names.push(name)) == "/"@ + name,
        names.len() > 0 ==> path_text(names.push(name)) == path_text(names) + "/"@ + name,
{
    assert(names.push(name).drop_last() =~= names);
    assert(names.push(name).last() == name);
}

/// What each error says, and of which kind it is.
pub proof fn lemma_message_meaning(error: ErrorView)
    ensures
        match error {
            ErrorView::RootName { name } => {
                &&& error.kind_of() == ErrorKind::InvalidData
                &&& error.text() == "Malformed directory ("@ + ("root entry name is "@ + debug_text(
                    name,
                ) + ", but should be "@ + debug_text("Root Entry"@)) + ")"@
            },
            ErrorView::RootStreamLen { stream_len } => {
                &&& error.kind_of() == ErrorKind::InvalidData
                &&& error.text() == "Malformed directory ("@ + ("root stream len is "@ + decimal(
                    stream_len as nat,
                ) + ", but should be multiple of "@ + decimal(64)) + ")"@
            },
            ErrorView::TreeLoop => {
                &&& error.kind_of() == ErrorKind::InvalidData
                &&& error.text() == "Malformed directory ("@ + "loop in tree"@ + ")"@
            },
            ErrorView::RootType { obj_type } => {
                &&& error.kind_of() == ErrorKind::InvalidData
                &&& error.text() == "Malformed directory ("@ + (
                "wrong object type for root entry: "@ + decimal(obj_type as nat)) + ")"@
            },
            ErrorView::NonRootType { obj_type } => {
                &&& error.kind_of() == ErrorKind::InvalidData
                &&& error.text() == "Malformed directory ("@ + (
                "wrong object type for non-root entry: "@ + decimal(obj_type as nat)) + ")"@
            },
            ErrorView::TwoRedNodes => {
                &&& error.kind_of() == ErrorKind::InvalidData
                &&& error.text() == "Malformed directory ("@ + "two red nodes in a row"@ + ")"@
            },
            ErrorView::LeftSiblingIndex { index, count } => {
                &&& error.kind_of() == ErrorKind::InvalidData
                &&& error.text() == "Malformed directory ("@ + ("left sibling"@ + " index is "@
                    + decimal(index as nat) + ", but directory entry count is "@ + decimal(
                    count as nat,
                )) + ")"@
            },
            ErrorView::RightSiblingIndex { index, count } => {
                &&& error.kind_of() == ErrorKind::InvalidData
                &&& error.text() == "Malformed directory ("@ + ("right sibling"@ + " index is "@
                    + decimal(index as nat) + ", but directory entry count is "@ + decimal(
                    count as nat,
                )) + ")"@
            },
            ErrorView::ChildIndex { index, count } => {
                &&& error.kind_of() == ErrorKind::InvalidData
                &&& error.text() == "Malformed directory ("@ + ("child"@ + " index is "@ + decimal(
                    index as nat,
                ) + ", but directory entry count is "@ + decimal(count as nat)) + ")"@
            },
            ErrorView::NamesOutOfOrder { name, sibling } => {
                &&& error.kind_of() == ErrorKind::InvalidData
                &&& error.text() == "Malformed directory ("@ + ("name ordering, "@ + debug_text(name)
                    + " vs "@ + debug_text(sibling)) + ")"@
            },
            ErrorView::AllocationTable => error.kind_of() == ErrorKind::InvalidData,
            ErrorView::PathPrefix => error.kind_of() == ErrorKind::InvalidInput,
            ErrorView::PathAboveRoot => error.kind_of() == ErrorKind::InvalidInput,
            ErrorView::PathNotUnicode => error.kind_of() == ErrorKind::InvalidInput,
            ErrorView::NoSuchStorage { names } => {
                &&& error.kind_of() == ErrorKind::NotFound
                &&& error.text() == "No such storage: "@ + path_debug_text(path_text(names))
            },
            ErrorView::NotAStorage { names } => {
                &&& error.kind_of() == ErrorKind::InvalidInput
                &&& error.text() == "Not a storage: "@ + path_debug_text(path_text(names))
            },
            ErrorView::NoSuchObject { names } => {
                &&& error.kind_of() == ErrorKind::NotFound
                &&& error.text() == "No such object: "@ + path_debug_text(path_text(names))
            },
        },
{
}

} // verus!
