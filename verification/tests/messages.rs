use somnium_ui::pool::{Handle, PoolError};
use somnium_ui::somui::{DocumentError, PropertyError};
use somnium_ui::text::markup::MarkupError;

#[test]
fn pool_errors_read_as_before() {
    assert_eq!(PoolError::InvalidIndex(7).message(), "pool: invalid index 7");
    assert_eq!(PoolError::InvalidGeneration(0).message(), "pool: stale generation 0");
    assert_eq!(PoolError::Empty(4294967295).message(), "pool: empty record at 4294967295");
    assert_eq!(Handle::<u8>::new(12, 3).describe(), "[idx=12 gen=3]");
}

#[test]
fn markup_errors_name_the_byte_and_the_tag() {
    assert_eq!(
        MarkupError::Unmatched { at: 10, tag: "b".into() }.message(),
        "byte 10: `[/b]` closes nothing"
    );
    assert_eq!(
        MarkupError::BadValue { at: 0, tag: "color".into() }.message(),
        "byte 0: `[color]` has a bad value"
    );
    assert_eq!(
        MarkupError::Unclosed { at: 123456, tag: "\u{00E9}".into() }.message(),
        "byte 123456: `[\u{00E9}]` was never closed"
    );
}

#[test]
fn document_errors_say_what_is_wrong() {
    assert_eq!(DocumentError::Parse("eof".into()).message(), "invalid .somui document: eof");
    assert_eq!(
        DocumentError::FromTheFuture { found: 12, current: 1 }.message(),
        "document version 12 is newer than this build's 1"
    );
    assert_eq!(
        DocumentError::UnknownKind { element: "Hud".into(), kind: "blink".into() }.message(),
        "element `Hud` has unknown widget kind `blink`"
    );
    assert_eq!(DocumentError::DuplicateName("Score".into()).message(), "two elements are named `Score`");
    assert_eq!(
        DocumentError::UnnamedElement { kind: "text".into() }.message(),
        "an element of kind `text` has no name"
    );
    assert_eq!(
        DocumentError::InvalidReference.message(),
        "reference resolution must be finite and positive"
    );
    assert_eq!(
        DocumentError::InvalidPlacement { element: "Bar".into() }.message(),
        "element `Bar` has invalid anchors, offsets, or pivot"
    );
}

#[test]
fn property_errors_name_the_property() {
    assert_eq!(PropertyError::UnknownElement("Score".into()).message(), "no element named `Score`");
    assert_eq!(
        PropertyError::UnknownProperty { kind: "text".into(), property: "txt".into() }.message(),
        "a `text` element has no property `txt`"
    );
    assert_eq!(
        PropertyError::WrongType { property: "visible".into(), expected: "bool" }.message(),
        "`visible` takes a bool"
    );
}
