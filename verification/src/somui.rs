//! Live instances of `.somui` documents, and why a document or a property
//! write is refused.
//!
//! Names are the public interface of an instance: a script or game asks for
//! `HealthBar`, not for a pool index that changes on every load. Building
//! the widgets themselves, and laying them out, happens in the application.
//!
//! Validation works on what it reads of each element: its kind and name,
//! whether the kind is registered, and whether its anchors, offsets and
//! pivot are usable numbers.

pub mod kinds;

use vstd::prelude::*;
use crate::keyed::KeyedTable;
use crate::message::NodeHandle;
use crate::text::compose::{decimal, Composer};
use crate::text::encoding::str_equals;

verus! {

/// Why a document could not be used.
#[derive(Clone, Debug, PartialEq, Eq)]
pub enum DocumentError {
    /// The file is not a `.somui` JSON document at all.
    Parse(String),
    /// Written by a newer build.
    FromTheFuture { found: u32, current: u32 },
    /// An element names a kind this build does not have.
    UnknownKind { element: String, kind: String },
    /// Two elements answer to one name.
    DuplicateName(String),
    /// An element has no name, so nothing can address it.
    UnnamedElement { kind: String },
    /// The preview resolution cannot describe a canvas.
    InvalidReference,
    /// An element's anchors, offsets, or pivot contain an impossible value.
    InvalidPlacement { element: String },
}

/// Why a live property write did not land.
#[derive(Clone, Debug, PartialEq, Eq)]
pub enum PropertyError {
    /// No element of that name is in this instance.
    UnknownElement(String),
    /// The element's kind does not understand that property.
    UnknownProperty { kind: String, property: String },
    /// The property exists but not with that type.
    WrongType { property: String, expected: &'static str },
}

/// The document version this build writes.
pub const CURRENT_VERSION: u32 = 1;

/// A document error, with its texts as character sequences.
pub enum ErrorView {
    Parse(Seq<char>),
    FromTheFuture { found: u32, current: u32 },
    UnknownKind { element: Seq<char>, kind: Seq<char> },
    DuplicateName(Seq<char>),
    UnnamedElement { kind: Seq<char> },
    InvalidReference,
    InvalidPlacement { element: Seq<char> },
}

impl View for DocumentError {
    type V = ErrorView;

    open spec fn view(&self) -> ErrorView {
        match self {
            DocumentError::Parse(reason) => ErrorView::Parse(reason@),
            DocumentError::FromTheFuture { found, current } => ErrorView::FromTheFuture {
                found: *found,
                current: *current,
            },
            DocumentError::UnknownKind { element, kind } => ErrorView::UnknownKind {
                element: element@,
                kind: kind@,
            },
            DocumentError::DuplicateName(name) => ErrorView::DuplicateName(name@),
            DocumentError::UnnamedElement { kind } => ErrorView::UnnamedElement { kind: kind@ },
            DocumentError::InvalidReference => ErrorView::InvalidReference,
            DocumentError::InvalidPlacement { element } => ErrorView::InvalidPlacement {
                element: element@,
            },
        }
    }
}

/// What a document error says.
pub open spec fn document_error_text(e: ErrorView) -> Seq<char> {
    match e {
        ErrorView::Parse(reason) => "invalid .somui document: "@ + reason,
        ErrorView::FromTheFuture { found, current } => "document version "@ + decimal(found as nat)
            + " is newer than this build's "@ + decimal(current as nat),
        ErrorView::UnknownKind { element, kind } => "element `"@ + element + "` has unknown widget kind `"@
            + kind + "`"@,
        ErrorView::DuplicateName(name) => "two elements are named `"@ + name + "`"@,
        ErrorView::UnnamedElement { kind } => "an element of kind `"@ + kind + "` has no name"@,
        ErrorView::InvalidReference => "reference resolution must be finite and positive"@,
        ErrorView::InvalidPlacement { element } => "element `"@ + element
            + "` has invalid anchors, offsets, or pivot"@,
    }
}

impl DocumentError {
    /// What is wrong with the document, for people.
    pub fn message(&self) -> (s: String)
        ensures
            s@ == document_error_text(self@),
    {
        let c = match self {
            DocumentError::Parse(reason) => {
                assert(Seq::<char>::empty() + "invalid .somui document: "@ =~= "invalid .somui document: "@);
                Composer::new().push_str("invalid .somui document: ").push_str(reason.as_str())
            },
            DocumentError::FromTheFuture { found, current } => {
                assert(Seq::<char>::empty() + "document version "@ =~= "document version "@);
                Composer::new().push_str("document version ").push_number(*found as u64).push_str(
                    " is newer than this build's ",
                ).push_number(*current as u64)
            },
            DocumentError::UnknownKind { element, kind } => {
                assert(Seq::<char>::empty() + "element `"@ =~= "element `"@);
                Composer::new().push_str("element `").push_str(element.as_str()).push_str(
                    "` has unknown widget kind `",
                ).push_str(kind.as_str()).push_str("`")
            },
            DocumentError::DuplicateName(name) => {
                assert(Seq::<char>::empty() + "two elements are named `"@ =~= "two elements are named `"@);
                Composer::new().push_str("two elements are named `").push_str(name.as_str()).push_str("`")
            },
            DocumentError::UnnamedElement { kind } => {
                assert(Seq::<char>::empty() + "an element of kind `"@ =~= "an element of kind `"@);
                Composer::new().push_str("an element of kind `").push_str(kind.as_str()).push_str(
                    "` has no name",
                )
            },
            DocumentError::InvalidReference => {
                assert(Seq::<char>::empty() + "reference resolution must be finite and positive"@
                    =~= "reference resolution must be finite and positive"@);
                Composer::new().push_str("reference resolution must be finite and positive")
            },
            DocumentError::InvalidPlacement { element } => {
                assert(Seq::<char>::empty() + "element `"@ =~= "element `"@);
                Composer::new().push_str("element `").push_str(element.as_str()).push_str(
                    "` has invalid anchors, offsets, or pivot",
                )
            },
        };
        c.finish()
    }
}

/// What a property error says.
pub open spec fn property_error_text(e: PropertyError) -> Seq<char> {
    match e {
        PropertyError::UnknownElement(name) => "no element named `"@ + name@ + "`"@,
        PropertyError::UnknownProperty { kind, property } => "a `"@ + kind@ + "` element has no property `"@
            + property@ + "`"@,
        PropertyError::WrongType { property, expected } => "`"@ + property@ + "` takes a "@ + expected@,
    }
}

impl PropertyError {
    /// Why the write did not land, for people.
    pub fn message(&self) -> (s: String)
        ensures
            s@ == property_error_text(*self),
    {
        let c = match self {
            PropertyError::UnknownElement(name) => {
                assert(Seq::<char>::empty() + "no element named `"@ =~= "no element named `"@);
                Composer::new().push_str("no element named `").push_str(name.as_str()).push_str("`")
            },
            PropertyError::UnknownProperty { kind, property } => {
                assert(Seq::<char>::empty() + "a `"@ =~= "a `"@);
                Composer::new().push_str("a `").push_str(kind.as_str()).push_str(
                    "` element has no property `",
                ).push_str(property.as_str()).push_str("`")
            },
            PropertyError::WrongType { property, expected } => {
                assert(Seq::<char>::empty() + "`"@ =~= "`"@);
                Composer::new().push_str("`").push_str(property.as_str()).push_str("` takes a ").push_str(
                    expected,
                )
            },
        };
        c.finish()
    }
}

/// What validation reads of one element.
#[derive(Clone, Debug)]
pub struct ElementFacts {
    /// The widget kind the element names.
    pub kind: String,
    /// The element's authored name.
    pub name: String,
    /// Whether the kind is registered in this build.
    pub kind_known: bool,
    /// Whether its anchors lie in the unit square in order, and its
    /// offsets and pivot are finite, the pivot in the unit square.
    pub placement_valid: bool,
}

/// An element's facts, with its texts as character sequences.
pub struct FactsView {
    pub kind: Seq<char>,
    pub name: Seq<char>,
    pub kind_known: bool,
    pub placement_valid: bool,
}

impl View for ElementFacts {
    type V = FactsView;

    open spec fn view(&self) -> FactsView {
        FactsView {
            kind: self.kind@,
            name: self.name@,
            kind_known: self.kind_known,
            placement_valid: self.placement_valid,
        }
    }
}

/// Whether an element before `i` has the name `name`.
pub open spec fn named_before(elems: Seq<FactsView>, i: int, name: Seq<char>) -> bool {
    exists|j: int| 0 <= j < i && #[trigger] elems[j].name == name
}

/// The errors of element `i`: a missing name, or a name an earlier element
/// already has; an unknown kind; an unusable placement. In that order.
pub open spec fn element_errors(elems: Seq<FactsView>, i: int) -> Seq<ErrorView> {
    let e = elems[i];
    let naming = if e.name.len() == 0 {
        seq![ErrorView::UnnamedElement { kind: e.kind }]
    } else if named_before(elems, i, e.name) {
        seq![ErrorView::DuplicateName(e.name)]
    } else {
        Seq::empty()
    };
    let kinding = if e.kind_known {
        Seq::empty()
    } else {
        seq![ErrorView::UnknownKind { element: e.name, kind: e.kind }]
    };
    let placing = if e.placement_valid {
        Seq::empty()
    } else {
        seq![ErrorView::InvalidPlacement { element: e.name }]
    };
    naming + kinding + placing
}

/// The errors of the first `n` elements, in element order.
pub open spec fn errors_through(elems: Seq<FactsView>, n: int) -> Seq<ErrorView>
    decreases n,
{
    if n <= 0 {
        Seq::empty()
    } else {
        errors_through(elems, n - 1) + element_errors(elems, n - 1)
    }
}

/// Everything wrong with a document: a version from a newer build, an
/// unusable reference resolution, then each element's errors, the elements
/// root first and depth first.
pub open spec fn validation_errors(version: u32, reference_valid: bool, elems: Seq<FactsView>) -> Seq<ErrorView> {
    let future = if version > CURRENT_VERSION {
        seq![ErrorView::FromTheFuture { found: version, current: CURRENT_VERSION }]
    } else {
        Seq::empty()
    };
    let reference = if reference_valid {
        Seq::empty()
    } else {
        seq![ErrorView::InvalidReference]
    };
    future + reference + errors_through(elems, elems.len() as int)
}

/// The element facts, as views.
pub open spec fn facts_view(elements: Seq<ElementFacts>) -> Seq<FactsView> {
    elements.map_values(|e: ElementFacts| e@)
}

/// The errors, as views.
pub open spec fn errors_view(errors: Seq<DocumentError>) -> Seq<ErrorView> {
    errors.map_values(|e: DocumentError| e@)
}

/// Whether an element before `i` is named `name`.
fn is_named_before(elements: &Vec<ElementFacts>, i: usize, name: &str) -> (b: bool)
    requires
        i <= elements@.len(),
    ensures
        b == named_before(facts_view(elements@), i as int, name@),
{
    let ghost v = facts_view(elements@);
    let mut j: usize = 0;
    while j < i
        invariant
            i <= elements@.len(),
            v == facts_view(elements@),
            j <= i,
            forall|k: int| 0 <= k < j ==> #[trigger] v[k].name != name@,
        decreases i - j,
    {
        if str_equals(elements[j].name.as_str(), name) {
            assert(v[j as int].name == name@);
            return true;
        }
        j = j + 1;
    }
    false
}

/// Checks what was read of a document: its version, whether its reference
/// resolution is usable, and its elements root first, depth first. Every
/// problem is reported, in that order.
#[verifier::spinoff_prover]
#[verifier::rlimit(40)]
pub fn validate_facts(version: u32, reference_valid: bool, elements: &Vec<ElementFacts>) -> (r: Result<(), Vec<DocumentError>>)
    ensures
        match r {
            Ok(()) => validation_errors(version, reference_valid, facts_view(elements@)).len() == 0,
            Err(errors) => errors@.len() > 0 && errors_view(errors@) == validation_errors(
                version,
                reference_valid,
                facts_view(elements@),
            ),
        },
{
    let ghost v = facts_view(elements@);
    let mut errors: Vec<DocumentError> = Vec::new();
    if version > CURRENT_VERSION {
        errors.push(DocumentError::FromTheFuture { found: version, current: CURRENT_VERSION });
    }
    if !reference_valid {
        errors.push(DocumentError::InvalidReference);
    }
    let ghost header = errors_view(errors@);
    proof {
        assert(header =~= validation_errors(version, reference_valid, v).take(header.len() as int)) by {
            assert(errors_through(v, 0) =~= Seq::<ErrorView>::empty());
        }
    }
    let mut i: usize = 0;
    while i < elements.len()
        invariant
            v == facts_view(elements@),
            i <= elements@.len(),
            header == (if version > CURRENT_VERSION {
                seq![ErrorView::FromTheFuture { found: version, current: CURRENT_VERSION }]
            } else {
                Seq::empty()
            }) + (if reference_valid {
                Seq::empty()
            } else {
                seq![ErrorView::InvalidReference]
            }),
            errors_view(errors@) == header + errors_through(v, i as int),
        decreases elements@.len() - i,
    {
        let ghost before = errors@;
        let e = &elements[i];
        assert(v[i as int] == e@);
        if e.name.as_str().is_empty() {
            errors.push(DocumentError::UnnamedElement { kind: e.kind.clone() });
        } else if is_named_before(elements, i, e.name.as_str()) {
            errors.push(DocumentError::DuplicateName(e.name.clone()));
        }
        let ghost named = errors@;
        if !e.kind_known {
            errors.push(DocumentError::UnknownKind { element: e.name.clone(), kind: e.kind.clone() });
        }
        let ghost kinded = errors@;
        if !e.placement_valid {
            errors.push(DocumentError::InvalidPlacement { element: e.name.clone() });
        }
        proof {
            let ee = element_errors(v, i as int);
            assert(errors_view(errors@) =~= errors_view(before) + ee) by {
                assert(errors_view(before) =~= header + errors_through(v, i as int));
                assert(errors@.subrange(0, before.len() as int) =~= before);
            }
            assert(errors_through(v, i as int + 1) == errors_through(v, i as int) + ee);
            assert(header + errors_through(v, i as int) + ee =~= header + (errors_through(v, i as int) + ee));
        }
        i = i + 1;
    }
    proof {
        assert(header + errors_through(v, v.len() as int) =~= validation_errors(version, reference_valid, v));
    }
    if errors.len() == 0 {
        Ok(())
    } else {
        Err(errors)
    }
}

/// A document passes validation exactly when its version is not from a
/// newer build, its reference resolution is usable, and every element has
/// a name no other element has, a registered kind and a usable placement.
pub proof fn lemma_validation_passes_exactly_when_sound(version: u32, reference_valid: bool, elems: Seq<FactsView>)
    ensures
        validation_errors(version, reference_valid, elems).len() == 0 <==> {
            &&& version <= CURRENT_VERSION
            &&& reference_valid
            &&& forall|i: int| 0 <= i < elems.len() ==> {
                &&& (#[trigger] elems[i]).name.len() > 0
                &&& elems[i].kind_known
                &&& elems[i].placement_valid
            }
            &&& forall|i: int, j: int| 0 <= i < j < elems.len() ==> (#[trigger] elems[i]).name != (#[trigger] elems[j]).name
        },
{
    lemma_errors_through_empty(elems, elems.len() as int);
}

/// The first `n` elements have no errors exactly when each has a name, a
/// registered kind and a usable placement, and no two share a name.
proof fn lemma_errors_through_empty(elems: Seq<FactsView>, n: int)
    requires
        0 <= n <= elems.len(),
    ensures
        errors_through(elems, n).len() == 0 <==> {
            &&& forall|i: int| 0 <= i < n ==> {
                &&& (#[trigger] elems[i]).name.len() > 0
                &&& elems[i].kind_known
                &&& elems[i].placement_valid
            }
            &&& forall|i: int, j: int| 0 <= i < j < n ==> (#[trigger] elems[i]).name != (#[trigger] elems[j]).name
        },
    decreases n,
{
    if n > 0 {
        lemma_errors_through_empty(elems, n - 1);
        let e = elems[n - 1];
        if named_before(elems, n - 1, e.name) {
            let j = choose|j: int| 0 <= j < n - 1 && #[trigger] elems[j].name == e.name;
            assert(elems[j].name == elems[n - 1].name);
        }
        if forall|i: int, j: int| 0 <= i < j < n ==> (#[trigger] elems[i]).name != (#[trigger] elems[j]).name {
            assert(!named_before(elems, n - 1, e.name)) by {
                if named_before(elems, n - 1, e.name) {
                    let j = choose|j: int| 0 <= j < n - 1 && #[trigger] elems[j].name == e.name;
                    assert(elems[j].name != elems[n - 1].name);
                }
            }
        }
    }
}

/// Where one element of an instance was placed.
#[derive(Clone, Debug)]
pub struct InstancePlacement {
    /// The element's authored name.
    pub name: String,
    /// The authored name of its parent; none for the document's root.
    pub parent: Option<String>,
    /// Its live widget.
    pub handle: NodeHandle,
}

/// One live retained-tree instance of a `.somui` document.
#[derive(Debug)]
pub struct UiInstance {
    handles: KeyedTable<NodeHandle>,
    placements: Vec<InstancePlacement>,
}

impl UiInstance {
    /// The live widget of each authored name.
    pub closed spec fn names(&self) -> Map<Seq<char>, NodeHandle> {
        self.handles@
    }

    /// The placements, in the order the elements were made.
    pub closed spec fn placement_seq(&self) -> Seq<InstancePlacement> {
        self.placements@
    }

    /// An instance with no elements yet.
    pub fn new() -> (i: Self)
        ensures
            i.names() == Map::<Seq<char>, NodeHandle>::empty(),
            i.placement_seq() == Seq::<InstancePlacement>::empty(),
    {
        UiInstance { handles: KeyedTable::new(), placements: Vec::new() }
    }

    /// Find a live widget by its authored name.
    pub fn handle(&self, name: &str) -> (h: Option<NodeHandle>)
        ensures
            h == (if self.names().contains_key(name@) {
                Some(self.names()[name@])
            } else {
                None
            }),
    {
        self.handles.get(name)
    }

    /// Records a made element: its name now finds `handle`, and its
    /// placement follows those already made.
    pub fn record(&mut self, name: &str, parent: Option<&str>, handle: NodeHandle)
        ensures
            final(self).names() == old(self).names().insert(name@, handle),
            final(self).placement_seq().len() == old(self).placement_seq().len() + 1,
            final(self).placement_seq().drop_last() == old(self).placement_seq(),
            final(self).placement_seq().last().name@ == name@,
            final(self).placement_seq().last().handle == handle,
            match parent {
                Some(p) => final(self).placement_seq().last().parent matches Some(q) && q@ == p@,
                None => final(self).placement_seq().last().parent is None,
            },
    {
        self.handles.insert(name, handle);
        let parent_name = match parent {
            Some(p) => Some(p.to_owned()),
            None => None,
        };
        self.placements.push(InstancePlacement { name: name.to_owned(), parent: parent_name, handle });
        proof {
            assert(self.placements@.drop_last() =~= old(self).placements@);
        }
    }
}

impl Default for UiInstance {
    fn default() -> (i: Self)
        ensures
            i.names() == Map::<Seq<char>, NodeHandle>::empty(),
            i.placement_seq() == Seq::<InstancePlacement>::empty(),
    {
        UiInstance::new()
    }
}

/// After an element is recorded, its name finds its widget, and every
/// other name finds what it found before.
pub proof fn lemma_record_then_handle(
    before: &UiInstance,
    after: &UiInstance,
    name: Seq<char>,
    handle: NodeHandle,
    other: Seq<char>,
)
    requires
        after.names() == before.names().insert(name, handle),
    ensures
        after.names().contains_key(name),
        after.names()[name] == handle,
        other != name ==> after.names().contains_key(other) == before.names().contains_key(other),
        other != name && before.names().contains_key(other) ==> after.names()[other] == before.names()[other],
{
}

} // verus!
