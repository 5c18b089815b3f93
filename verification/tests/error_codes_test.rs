use tabnas_xml::error::WfError;

/// The index of the `expected` column, read from a fixture's own header:
/// the first comment line names the columns.
fn expected_column(text: &str) -> Option<usize> {
    let header = text.lines().find(|line| line.starts_with('#'))?;
    header
        .trim_start_matches('#')
        .split('\t')
        .position(|name| "expected" == name.trim())
}

#[test]
fn the_expected_column_is_found_by_name() {
    assert_eq!(
        expected_column("# name\tinput\texpected\topts\nrow\tsrc\tERROR:x\t\n"),
        Some(2)
    );
    assert_eq!(expected_column("# name\texpected\tinput\topts\n"), Some(1));
    assert_eq!(expected_column("row\tsrc\tERROR:x\n"), None);
    assert_eq!(expected_column("# name\tinput\topts\n"), None);
}

#[test]
fn every_error_has_its_code() {
    let all = [
        (WfError::InvalidXmlChar, "invalid_xml_char"),
        (WfError::CdataTerminatorInText, "cdata_terminator_in_text"),
        (WfError::BadEntityRef, "bad_entity_ref"),
        (WfError::UndeclaredEntity, "undeclared_entity"),
        (WfError::UnparsedEntityRef, "unparsed_entity_ref"),
        (WfError::ExternalEntityInAttr, "external_entity_in_attr"),
        (WfError::UnterminatedComment, "unterminated_comment"),
        (WfError::CommentDoubleDash, "comment_double_dash"),
        (WfError::UnterminatedCdata, "unterminated_cdata"),
        (WfError::UnterminatedPi, "unterminated_pi"),
        (WfError::PiTargetInvalid, "pi_target_invalid"),
        (WfError::XmlInvalidTag, "xml_invalid_tag"),
        (WfError::LtInAttrValue, "lt_in_attr_value"),
        (WfError::DuplicateAttribute, "duplicate_attribute"),
        (WfError::Cancel, "cancel"),
        (WfError::UnterminatedDoctype, "unterminated_doctype"),
        (WfError::ReservedNamespace, "reserved_namespace"),
        (WfError::InvalidNamespaceUri, "invalid_namespace_uri"),
        (WfError::UnboundPrefix, "unbound_prefix"),
        (WfError::TextAtTopLevel, "text_at_top_level"),
        (WfError::XmlMismatchedTag, "xml_mismatched_tag"),
    ];
    for (error, code) in all {
        assert_eq!(error.code(), code);
    }
}
