//! Names of entries, their order, and chains of names.
use crate::error::{Error, ErrorView};
use std::path::PathBuf;
use vstd::prelude::*;

verus! {

/// How one name stands to another in the order of the directory.
#[derive(Clone, Copy, Debug, PartialEq, Eq, Structural)]
pub enum NameOrder {
    Less,
    Equal,
    Greater,
}

impl NameOrder {
    /// How the second name stands to the first.
    pub open spec fn reversed(self) -> NameOrder {
        match self {
            NameOrder::Less => NameOrder::Greater,
            NameOrder::Equal => NameOrder::Equal,
            NameOrder::Greater => NameOrder::Less,
        }
    }
}

/// The UTF-16 code units of one character.
pub open spec fn char_units(c: char) -> Seq<u16> {
    let code = c as u32;
    if code < 0x1_0000 {
        seq![code as u16]
    } else {
        seq![
            (0xd800 + (code - 0x1_0000) / 0x400) as u16,
            (0xdc00 + (code - 0x1_0000) % 0x400) as u16,
        ]
    }
}

/// The UTF-16 code units of a text.
pub open spec fn utf16_units(text: Seq<char>) -> Seq<u16>
    decreases text.len(),
{
    if text.len() == 0 {
        seq![]
    } else {
        utf16_units(text.drop_last()) + char_units(text.last())
    }
}

/// Returns the UTF-16 code units of `text`.
pub fn encode_utf16(text: &str) -> (units: Vec<u16>)
    ensures
        units@ == utf16_units(text@),
{
    let mut units: Vec<u16> = Vec::new();
    proof {
        assert(text@.take(0) =~= Seq::<char>::empty());
    }
    for c in rest: text.chars()
        invariant
            rest.seq() == text@,
            units@ == utf16_units(text@.take(rest.index() as int)),
    {
        let code: u32 = c as u32;
        proof {
            let upto = text@.take(rest.index() + 1);
            assert(upto.drop_last() =~= text@.take(rest.index() as int));
            assert(upto.last() == c);
        }
        let ghost before = units@;
        if code < 0x1_0000 {
            units.push(code as u16);
        } else {
            let high: u32 = 0xd800 + (code - 0x1_0000) / 0x400;
            let low: u32 = 0xdc00 + (code - 0x1_0000) % 0x400;
            units.push(high as u16);
            units.push(low as u16);
        }
        assert(units@ =~= before + char_units(c));
    }
    assert(text@.take(text@.len() as int) =~= text@);
    units
}

/// Calls `str::to_uppercase`, whose result is named by [`uppercase`].
#[verifier::external_body]
pub(crate) fn to_uppercase(text: &str) -> (upper: String)
    ensures
        upper@ == uppercase(text@),
{
    text.to_uppercase()
}

/// The uppercase equivalent of a text, as `str::to_uppercase` gives it.
pub uninterp spec fn uppercase(text: Seq<char>) -> Seq<char>;

/// The lexicographic order of two texts by the code points of their characters.
pub open spec fn text_order(a: Seq<char>, b: Seq<char>) -> NameOrder
    decreases a.len(),
{
    if a.len() == 0 && b.len() == 0 {
        NameOrder::Equal
    } else if a.len() == 0 {
        NameOrder::Less
    } else if b.len() == 0 {
        NameOrder::Greater
    } else if (a[0] as u32) < (b[0] as u32) {
        NameOrder::Less
    } else if (a[0] as u32) > (b[0] as u32) {
        NameOrder::Greater
    } else {
        text_order(a.drop_first(), b.drop_first())
    }
}

/// The order of names in a directory: by the number of UTF-16 code units, and
/// for names of one length by their uppercase equivalents.
#[verifier::opaque]
pub open spec fn name_order(a: Seq<char>, b: Seq<char>) -> NameOrder {
    if utf16_units(a).len() < utf16_units(b).len() {
        NameOrder::Less
    } else if utf16_units(a).len() > utf16_units(b).len() {
        NameOrder::Greater
    } else {
        text_order(uppercase(a), uppercase(b))
    }
}

/// Returns the characters of `text`.
fn chars_of(text: &str) -> (chars: Vec<char>)
    ensures
        chars@ == text@,
{
    let mut chars: Vec<char> = Vec::new();
    for c in rest: text.chars()
        invariant
            rest.seq() == text@,
            chars@ == text@.take(rest.index() as int),
    {
        chars.push(c);
        assert(chars@ =~= text@.take(rest.index() + 1));
    }
    assert(text@.take(text@.len() as int) =~= text@);
    chars
}

/// Compares two texts by the code points of their characters.
fn compare_texts(a: &str, b: &str) -> (order: NameOrder)
    ensures
        order == text_order(a@, b@),
{
    let left: Vec<char> = chars_of(a);
    let right: Vec<char> = chars_of(b);
    let mut i: usize = 0;
    assert(a@.skip(0) =~= a@);
    assert(b@.skip(0) =~= b@);
    while i < left.len() && i < right.len()
        invariant
            left@ == a@,
            right@ == b@,
            i <= left@.len(),
            i <= right@.len(),
            text_order(a@, b@) == text_order(a@.skip(i as int), b@.skip(i as int)),
        decreases left@.len() - i,
    {
        let x: u32 = left[i] as u32;
        let y: u32 = right[i] as u32;
        assert(a@.skip(i as int).drop_first() =~= a@.skip(i + 1));
        assert(b@.skip(i as int).drop_first() =~= b@.skip(i + 1));
        if x < y {
            return NameOrder::Less;
        }
        if x > y {
            return NameOrder::Greater;
        }
        i += 1;
    }
    if left.len() == right.len() {
        NameOrder::Equal
    } else if left.len() < right.len() {
        NameOrder::Less
    } else {
        NameOrder::Greater
    }
}

/// Compares two names in the order of the directory: a name with fewer UTF-16
/// code units comes first, and names of one length are compared without regard
/// to case.
pub fn compare_names(a: &str, b: &str) -> (order: NameOrder)
    ensures
        order == name_order(a@, b@),
        order == NameOrder::Equal <==> utf16_units(a@).len() == utf16_units(b@).len() && uppercase(
            a@,
        ) == uppercase(b@),
{
    proof {
        lemma_name_order_meaning(a@, b@);
        reveal(name_order);
    }
    let left: usize = encode_utf16(a).len();
    let right: usize = encode_utf16(b).len();
    if left < right {
        NameOrder::Less
    } else if left > right {
        NameOrder::Greater
    } else {
        let a_upper = to_uppercase(a);
        let b_upper = to_uppercase(b);
        compare_texts(a_upper.as_str(), b_upper.as_str())
    }
}

proof fn lemma_text_order_reversed(a: Seq<char>, b: Seq<char>)
    ensures
        text_order(b, a) == text_order(a, b).reversed(),
    decreases a.len(),
{
    if a.len() > 0 && b.len() > 0 {
        lemma_text_order_reversed(a.drop_first(), b.drop_first());
    }
}

proof fn lemma_text_order_transitive(a: Seq<char>, b: Seq<char>, c: Seq<char>)
    ensures
        text_order(a, b) == NameOrder::Less && text_order(b, c) != NameOrder::Greater ==> text_order(a, c)
            == NameOrder::Less,
        text_order(a, b) == NameOrder::Equal ==> text_order(a, c) == text_order(b, c),
    decreases a.len(),
{
    if a.len() > 0 && b.len() > 0 && c.len() > 0 {
        lemma_text_order_transitive(a.drop_first(), b.drop_first(), c.drop_first());
    }
}

/// Comparing two names the other way round gives the reversed order; a name
/// equals itself.
pub proof fn lemma_name_order_reversed(a: Seq<char>, b: Seq<char>)
    ensures
        name_order(b, a) == name_order(a, b).reversed(),
        name_order(a, a) == NameOrder::Equal,
{
    reveal(name_order);
    lemma_text_order_reversed(uppercase(a), uppercase(b));
    lemma_text_order_reversed(uppercase(a), uppercase(a));
}

/// The order of names is transitive, and names that are equal in it stand in the
/// same order to every third name.
pub proof fn lemma_name_order_transitive(a: Seq<char>, b: Seq<char>, c: Seq<char>)
    ensures
        name_order(a, b) == NameOrder::Less && name_order(b, c) != NameOrder::Greater ==> name_order(a, c)
            == NameOrder::Less,
        name_order(a, b) != NameOrder::Greater && name_order(b, c) == NameOrder::Less ==> name_order(a, c)
            == NameOrder::Less,
        name_order(a, b) == NameOrder::Equal ==> name_order(a, c) == name_order(b, c),
{
    reveal(name_order);
    lemma_text_order_transitive(uppercase(a), uppercase(b), uppercase(c));
}

/// One text comes before another: where they first differ, it ends or has the lesser
/// character.
pub open spec fn precedes(a: Seq<char>, b: Seq<char>) -> bool {
    exists|k: int| #[trigger] differ_at(a, b, k)
}

/// Two texts agree before `k`, and there the first one ends or has the lesser character.
pub open spec fn differ_at(a: Seq<char>, b: Seq<char>, k: int) -> bool {
    &&& 0 <= k <= a.len()
    &&& k < b.len()
    &&& forall|i: int| 0 <= i < k ==> a[i] == b[i]
    &&& k == a.len() || (a[k] as u32) < (b[k] as u32)
}

proof fn lemma_text_order_meaning(a: Seq<char>, b: Seq<char>)
    ensures
        text_order(a, b) == NameOrder::Equal <==> a == b,
        text_order(a, b) == NameOrder::Less <==> precedes(a, b),
    decreases a.len(),
{
    if a.len() == 0 || b.len() == 0 {
        if a.len() == 0 && b.len() == 0 {
            assert(a =~= b);
        } else if a.len() == 0 {
            assert(differ_at(a, b, 0));
        }
    } else {
        let (x, y) = (a.drop_first(), b.drop_first());
        lemma_text_order_meaning(x, y);
        if (a[0] as u32) < (b[0] as u32) {
            lemma_same_char(a[0], b[0]);
            assert(differ_at(a, b, 0));
        } else if (a[0] as u32) == (b[0] as u32) {
            lemma_same_char(a[0], b[0]);
            if x == y {
                assert forall|i: int| 0 <= i < a.len() implies a[i] == b[i] by {
                    if i > 0 {
                        assert(x[i - 1] == y[i - 1]);
                    }
                }
                assert(a =~= b);
            }
            if precedes(x, y) {
                let k = choose|k: int| #[trigger] differ_at(x, y, k);
                assert forall|i: int| 0 <= i < k + 1 implies a[i] == b[i] by {
                    if i > 0 {
                        assert(x[i - 1] == y[i - 1]);
                    }
                }
                assert(differ_at(a, b, k + 1));
            }
            if precedes(a, b) {
                let k = choose|k: int| #[trigger] differ_at(a, b, k);
                assert forall|i: int| 0 <= i < k - 1 implies x[i] == y[i] by {
                    assert(a[i + 1] == b[i + 1]);
                }
                assert(differ_at(x, y, k - 1));
            }
        } else {
            lemma_same_char(a[0], b[0]);
            if precedes(a, b) {
                let k = choose|k: int| #[trigger] differ_at(a, b, k);
                assert(k == 0 || a[0] == b[0]);
            }
        }
    }
}

/// Two names are equal in the order of a directory exactly if they have the same number
/// of UTF-16 code units and the same uppercase equivalent. One is less than another
/// exactly if it has fewer units, or as many and an uppercase equivalent that comes
/// before that of the other.
pub proof fn lemma_name_order_meaning(a: Seq<char>, b: Seq<char>)
    ensures
        name_order(a, b) == NameOrder::Equal <==> {
            &&& utf16_units(a).len() == utf16_units(b).len()
            &&& uppercase(a) == uppercase(b)
        },
        name_order(a, b) == NameOrder::Less <==> {
            ||| utf16_units(a).len() < utf16_units(b).len()
            ||| utf16_units(a).len() == utf16_units(b).len() && precedes(
                uppercase(a),
                uppercase(b),
            )
        },
        name_order(a, b) == NameOrder::Greater <==> {
            ||| utf16_units(a).len() > utf16_units(b).len()
            ||| utf16_units(a).len() == utf16_units(b).len() && precedes(
                uppercase(b),
                uppercase(a),
            )
        },
{
    lemma_name_order_reversed(a, b);
    reveal(name_order);
    lemma_text_order_meaning(uppercase(a), uppercase(b));
    lemma_text_order_meaning(uppercase(b), uppercase(a));
    lemma_text_order_reversed(uppercase(a), uppercase(b));
}

/// The code units of a text made of two are those of the one and then of the other.
pub proof fn lemma_utf16_joined(a: Seq<char>, b: Seq<char>)
    ensures
        utf16_units(a + b) == utf16_units(a) + utf16_units(b),
    decreases b.len(),
{
    if b.len() == 0 {
        assert(a + b =~= a);
        assert(utf16_units(a) + utf16_units(b) =~= utf16_units(a));
    } else {
        lemma_utf16_joined(a, b.drop_last());
        assert((a + b).drop_last() =~= a + b.drop_last());
        assert((a + b).last() == b.last());
        assert(utf16_units(a + b) =~= utf16_units(a) + utf16_units(b));
    }
}

/// A character of the basic plane is its own code unit. Any other is two: one from
/// `0xd800` on and one from `0xdc00` on, which together give its number.
pub proof fn lemma_utf16_char(c: char)
    ensures
        ({
            let units = utf16_units(seq![c]);
            &&& (c as u32) < 0x1_0000 ==> units.len() == 1 && units[0] == c as u32
            &&& (c as u32) >= 0x1_0000 ==> {
                &&& units.len() == 2
                &&& 0xd800 <= units[0] < 0xdc00
                &&& 0xdc00 <= units[1] < 0xe000
                &&& c as u32 == 0x1_0000 + (units[0] - 0xd800) * 0x400 + (units[1] - 0xdc00)
            }
        }),
{
    let text = seq![c];
    assert(text.drop_last() =~= Seq::<char>::empty());
    assert(utf16_units(text.drop_last()) =~= Seq::<u16>::empty());
    assert(text.last() == c);
    assert(utf16_units(text) =~= char_units(c));
}

/// No two texts have the same code units.
pub proof fn lemma_utf16_injective(a: Seq<char>, b: Seq<char>)
    requires
        utf16_units(a) == utf16_units(b),
    ensures
        a == b,
    decreases a.len(),
{
    lemma_no_units(a);
    lemma_no_units(b);
    if a.len() > 0 && b.len() > 0 {
        let (x, y) = (seq![a[0]], seq![b[0]]);
        let (p, q) = (a.drop_first(), b.drop_first());
        assert(a =~= x + p);
        assert(b =~= y + q);
        lemma_utf16_joined(x, p);
        lemma_utf16_joined(y, q);
        lemma_utf16_char(a[0]);
        lemma_utf16_char(b[0]);
        let (u, w) = (utf16_units(a), utf16_units(b));
        assert(u[0] == utf16_units(x)[0] && w[0] == utf16_units(y)[0]);
        if (a[0] as u32) >= 0x1_0000 {
            assert(u[1] == utf16_units(x)[1]);
        }
        if (b[0] as u32) >= 0x1_0000 {
            assert(w[1] == utf16_units(y)[1]);
        }
        lemma_no_surrogate(a[0]);
        lemma_no_surrogate(b[0]);
        assert(a[0] as u32 == b[0] as u32);
        lemma_same_char(a[0], b[0]);
        let n = utf16_units(x).len() as int;
        assert(utf16_units(p) =~= u.skip(n));
        assert(utf16_units(q) =~= w.skip(n));
        lemma_utf16_injective(p, q);
        assert(a =~= b);
    } else {
        assert(a =~= b);
    }
}

proof fn lemma_same_char(c: char, d: char)
    ensures
        c as u32 == d as u32 <==> c == d,
{
}

proof fn lemma_no_surrogate(c: char)
    ensures
        (c as u32) < 0xd800 || (c as u32) >= 0xe000,
{
}

proof fn lemma_no_units(a: Seq<char>)
    ensures
        utf16_units(a).len() == 0 <==> a.len() == 0,
{
    if a.len() > 0 {
        assert(char_units(a.last()).len() > 0);
    }
}

/// A part of a path.
#[derive(Debug, PartialEq, Eq)]
pub enum PathComponent {
    /// A prefix, such as the letter of a drive.
    Prefix,
    /// The root.
    RootDir,
    /// The place itself.
    CurDir,
    /// One level up.
    ParentDir,
    /// A name.
    Normal(String),
    /// A name that is not valid Unicode.
    NotUnicode,
}

/// The model of [`PathComponent`].
pub enum ComponentView {
    Prefix,
    RootDir,
    CurDir,
    ParentDir,
    Normal(Seq<char>),
    NotUnicode,
}

impl View for PathComponent {
    type V = ComponentView;

    open spec fn view(&self) -> ComponentView {
        match *self {
            PathComponent::Prefix => ComponentView::Prefix,
            PathComponent::RootDir => ComponentView::RootDir,
            PathComponent::CurDir => ComponentView::CurDir,
            PathComponent::ParentDir => ComponentView::ParentDir,
            PathComponent::Normal(name) => ComponentView::Normal(name@),
            PathComponent::NotUnicode => ComponentView::NotUnicode,
        }
    }
}

/// The models of the parts of a path.
pub open spec fn component_views(components: Seq<PathComponent>) -> Seq<ComponentView> {
    components.map_values(|c: PathComponent| c@)
}

/// The texts of a list of borrowed strings.
pub open spec fn strs(names: Seq<&str>) -> Seq<Seq<char>> {
    names.map_values(|s: &str| s@)
}

/// The chain of names that remains when `component` follows the chain `names`.
pub open spec fn follow(names: Seq<Seq<char>>, component: ComponentView) -> Result<
    Seq<Seq<char>>,
    ErrorView,
> {
    match component {
        ComponentView::Prefix => Err(ErrorView::PathPrefix),
        ComponentView::RootDir => Ok(Seq::empty()),
        ComponentView::CurDir => Ok(names),
        ComponentView::ParentDir => if names.len() == 0 {
            Err(ErrorView::PathAboveRoot)
        } else {
            Ok(names.drop_last())
        },
        ComponentView::Normal(name) => Ok(names.push(name)),
        ComponentView::NotUnicode => Err(ErrorView::PathNotUnicode),
    }
}

/// The chain of names, descending from the root, that the parts of a path spell.
pub open spec fn name_chain(components: Seq<ComponentView>) -> Result<Seq<Seq<char>>, ErrorView>
    decreases components.len(),
{
    if components.len() == 0 {
        Ok(Seq::empty())
    } else {
        match name_chain(components.drop_last()) {
            Err(error) => Err(error),
            Ok(names) => follow(names, components.last()),
        }
    }
}

proof fn lemma_name_chain_error_stays(components: Seq<ComponentView>, k: int)
    requires
        0 <= k <= components.len(),
        name_chain(components.take(k)) is Err,
    ensures
        name_chain(components) == name_chain(components.take(k)),
    decreases components.len() - k,
{
    if k == components.len() {
        assert(components.take(k) =~= components);
    } else {
        assert(components.take(k + 1).drop_last() =~= components.take(k));
        lemma_name_chain_error_stays(components, k + 1);
    }
}

/// What each further part of a path does to the chain of names: a name goes to its end,
/// the root empties it, the place itself leaves it, one level up takes its last name
/// away and fails if there is none, and a prefix or a name that is not Unicode fails.
/// A failure stays.
pub proof fn lemma_name_chain_steps(parts: Seq<ComponentView>, name: Seq<char>)
    ensures
        name_chain(Seq::empty()) == Ok::<Seq<Seq<char>>, ErrorView>(Seq::empty()),
        name_chain(parts) matches Ok(names) ==> {
            &&& name_chain(parts.push(ComponentView::Normal(name))) == Ok::<
                Seq<Seq<char>>,
                ErrorView,
            >(names.push(name))
            &&& name_chain(parts.push(ComponentView::RootDir)) == Ok::<Seq<Seq<char>>, ErrorView>(
                Seq::empty(),
            )
            &&& name_chain(parts.push(ComponentView::CurDir)) == Ok::<Seq<Seq<char>>, ErrorView>(
                names,
            )
            &&& names.len() > 0 ==> name_chain(parts.push(ComponentView::ParentDir)) == Ok::<
                Seq<Seq<char>>,
                ErrorView,
            >(names.take(names.len() - 1))
            &&& names.len() == 0 ==> name_chain(parts.push(ComponentView::ParentDir)) == Err::<
                Seq<Seq<char>>,
                ErrorView,
            >(ErrorView::PathAboveRoot)
            &&& name_chain(parts.push(ComponentView::Prefix)) == Err::<Seq<Seq<char>>, ErrorView>(
                ErrorView::PathPrefix,
            )
            &&& name_chain(parts.push(ComponentView::NotUnicode)) == Err::<
                Seq<Seq<char>>,
                ErrorView,
            >(ErrorView::PathNotUnicode)
        },
        name_chain(parts) matches Err(error) ==> forall|part: ComponentView| #[trigger]
            name_chain(parts.push(part)) == Err::<Seq<Seq<char>>, ErrorView>(error),
{
    assert forall|part: ComponentView| #[trigger] name_chain(parts.push(part)) == match name_chain(
        parts,
    ) {
        Err(error) => Err::<Seq<Seq<char>>, ErrorView>(error),
        Ok(names) => follow(names, part),
    } by {
        assert(parts.push(part).drop_last() =~= parts);
        assert(parts.push(part).last() == part);
    }
    if let Ok(names) = name_chain(parts) {
        if names.len() > 0 {
            assert(names.take(names.len() - 1) =~= names.drop_last());
        }
    }
}

/// Turns the parts of a path into the names that lead down from the root.
/// Fails on the first part that a path within the file cannot have.
pub fn name_chain_from_components(components: &[PathComponent]) -> (names: Result<Vec<&str>, Error>)
    ensures
        match names {
            Ok(names) => name_chain(component_views(components@)) == Ok::<
                Seq<Seq<char>>,
                ErrorView,
            >(strs(names@)),
            Err(error) => name_chain(component_views(components@)) == Err::<
                Seq<Seq<char>>,
                ErrorView,
            >(error@),
        },
{
    let mut names: Vec<&str> = Vec::new();
    let ghost views = component_views(components@);
    let mut i: usize = 0;
    assert(views.take(0) =~= Seq::<ComponentView>::empty());
    assert(strs(names@) =~= Seq::<Seq<char>>::empty());
    while i < components.len()
        invariant
            views == component_views(components@),
            i <= components@.len(),
            name_chain(views.take(i as int)) == Ok::<Seq<Seq<char>>, ErrorView>(strs(names@)),
        decreases components@.len() - i,
    {
        let ghost upto = views.take(i + 1);
        let ghost before = strs(names@);
        proof {
            assert(upto.drop_last() =~= views.take(i as int));
            assert(upto.last() == components@[i as int]@);
            if name_chain(upto) is Err {
                lemma_name_chain_error_stays(views, i + 1);
            }
        }
        match &components[i] {
            PathComponent::Prefix => {
                return Err(Error::PathPrefix);
            },
            PathComponent::RootDir => {
                names.clear();
                assert(strs(names@) =~= Seq::<Seq<char>>::empty());
            },
            PathComponent::CurDir => {},
            PathComponent::ParentDir => {
                if names.len() == 0 {
                    return Err(Error::PathAboveRoot);
                }
                let _ = names.pop();
                assert(strs(names@) =~= before.drop_last());
            },
            PathComponent::Normal(name) => {
                names.push(name.as_str());
                assert(strs(names@) =~= before.push(name@));
            },
            PathComponent::NotUnicode => {
                return Err(Error::PathNotUnicode);
            },
        }
        i += 1;
    }
    assert(views.take(views.len() as int) =~= views);
    Ok(names)
}

/// Declares `std::path::PathBuf`, of which only [`path_components`] looks inside.
#[verifier::external_type_specification]
#[verifier::external_body]
pub struct ExPathBuf(std::path::PathBuf);

/// The parts that a path holds, in the notation of the platform that the path is
/// made for.
pub uninterp spec fn path_parts(path: PathBuf) -> Seq<ComponentView>;

/// Calls `std::path::Path::components`, and turns each part into the like-named
/// [`PathComponent`]. The parts are those that [`path_parts`] names.
#[verifier::external_body]
pub(crate) fn path_components(path: &PathBuf) -> (components: Vec<PathComponent>)
    ensures
        component_views(components@) == path_parts(*path),
{
    path.components().map(|part| match part {
        std::path::Component::Prefix(_) => PathComponent::Prefix,
        std::path::Component::RootDir => PathComponent::RootDir,
        std::path::Component::CurDir => PathComponent::CurDir,
        std::path::Component::ParentDir => PathComponent::ParentDir,
        std::path::Component::Normal(name) => match name.to_str() {
            Some(text) => PathComponent::Normal(text.to_string()),
            None => PathComponent::NotUnicode,
        },
    }).collect()
}

} // verus!
