//! The well-formedness errors the scanners report, each with the code a
//! caller sees.
use vstd::prelude::*;

verus! {

/// A well-formedness or namespace error.
#[derive(Debug, Clone, Copy, PartialEq, Eq, Structural)]
pub enum WfError {
    /// A C0 control other than tab, newline or carriage return.
    InvalidXmlChar,
    /// `]]>` in character data.
    CdataTerminatorInText,
    /// An `&` that starts no well-formed reference.
    BadEntityRef,
    /// A reference to a name no declaration covers.
    UndeclaredEntity,
    /// A reference to an unparsed (NDATA) entity.
    UnparsedEntityRef,
    /// A reference to an external entity inside an attribute value.
    ExternalEntityInAttr,
    /// `<!--` with no `-->`.
    UnterminatedComment,
    /// `--` inside a comment body.
    CommentDoubleDash,
    /// `<![CDATA[` with no `]]>`.
    UnterminatedCdata,
    /// `<?` with no `?>`.
    UnterminatedPi,
    /// A processing instruction without a proper target.
    PiTargetInvalid,
    /// A malformed tag.
    XmlInvalidTag,
    /// A literal `<` inside an attribute value.
    LtInAttrValue,
    /// An attribute name used twice in one tag.
    DuplicateAttribute,
    /// One open element more than the depth limit allows.
    Cancel,
    /// `<!DOCTYPE` with no closing `>`.
    UnterminatedDoctype,
    /// A reserved prefix or namespace name misused.
    ReservedNamespace,
    /// A namespace name holding white space.
    InvalidNamespaceUri,
    /// A prefix with no in-scope declaration.
    UnboundPrefix,
    /// Character data outside the root element.
    TextAtTopLevel,
    /// A close tag that names another element than the open one.
    XmlMismatchedTag,
}

/// The code each error is reported under.
pub open spec fn code_of(e: WfError) -> Seq<char> {
    match e {
        WfError::InvalidXmlChar => "invalid_xml_char"@,
        WfError::CdataTerminatorInText => "cdata_terminator_in_text"@,
        WfError::BadEntityRef => "bad_entity_ref"@,
        WfError::UndeclaredEntity => "undeclared_entity"@,
        WfError::UnparsedEntityRef => "unparsed_entity_ref"@,
        WfError::ExternalEntityInAttr => "external_entity_in_attr"@,
        WfError::UnterminatedComment => "unterminated_comment"@,
        WfError::CommentDoubleDash => "comment_double_dash"@,
        WfError::UnterminatedCdata => "unterminated_cdata"@,
        WfError::UnterminatedPi => "unterminated_pi"@,
        WfError::PiTargetInvalid => "pi_target_invalid"@,
        WfError::XmlInvalidTag => "xml_invalid_tag"@,
        WfError::LtInAttrValue => "lt_in_attr_value"@,
        WfError::DuplicateAttribute => "duplicate_attribute"@,
        WfError::Cancel => "cancel"@,
        WfError::UnterminatedDoctype => "unterminated_doctype"@,
        WfError::ReservedNamespace => "reserved_namespace"@,
        WfError::InvalidNamespaceUri => "invalid_namespace_uri"@,
        WfError::UnboundPrefix => "unbound_prefix"@,
        WfError::TextAtTopLevel => "text_at_top_level"@,
        WfError::XmlMismatchedTag => "xml_mismatched_tag"@,
    }
}

impl WfError {
    /// The error code.
    pub fn code(&self) -> (r: &'static str)
        ensures
            r@ == code_of(*self),
    {
        match self {
            WfError::InvalidXmlChar => "invalid_xml_char",
            WfError::CdataTerminatorInText => "cdata_terminator_in_text",
            WfError::BadEntityRef => "bad_entity_ref",
            WfError::UndeclaredEntity => "undeclared_entity",
            WfError::UnparsedEntityRef => "unparsed_entity_ref",
            WfError::ExternalEntityInAttr => "external_entity_in_attr",
            WfError::UnterminatedComment => "unterminated_comment",
            WfError::CommentDoubleDash => "comment_double_dash",
            WfError::UnterminatedCdata => "unterminated_cdata",
            WfError::UnterminatedPi => "unterminated_pi",
            WfError::PiTargetInvalid => "pi_target_invalid",
            WfError::XmlInvalidTag => "xml_invalid_tag",
            WfError::LtInAttrValue => "lt_in_attr_value",
            WfError::DuplicateAttribute => "duplicate_attribute",
            WfError::Cancel => "cancel",
            WfError::UnterminatedDoctype => "unterminated_doctype",
            WfError::ReservedNamespace => "reserved_namespace",
            WfError::InvalidNamespaceUri => "invalid_namespace_uri",
            WfError::UnboundPrefix => "unbound_prefix",
            WfError::TextAtTopLevel => "text_at_top_level",
            WfError::XmlMismatchedTag => "xml_mismatched_tag",
        }
    }
}

} // verus!
