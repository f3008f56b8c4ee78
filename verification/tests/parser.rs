use lib::dom::node::Node;
use lib::parser::Parser;

fn dump(input: &str) -> Option<Vec<String>> {
    let mut parser = Parser::new(input);
    let document = parser.parse()?;
    Some(Node::dump(parser.arena(), document))
}

fn lines(expected: &[&str]) -> Vec<String> {
    expected.iter().map(|l| String::from(*l)).collect()
}

#[test]
fn builds_head_and_body_around_a_paragraph() {
    assert_eq!(
        dump("<!DOCTYPE html><html><p></p></html>"),
        Some(lines(&[
            "Document",
            "  <!DOCTYPE html>",
            "  <html>",
            "    <head>",
            "    \"",
            "    <body>",
            "      <p>",
            "      \"",
            "    \"",
            "  \"",
            "\"",
        ]))
    );
}

#[test]
fn a_new_paragraph_closes_the_open_one() {
    assert_eq!(
        dump("<!DOCTYPE html><html><p><div></div></html>"),
        Some(lines(&[
            "Document",
            "  <!DOCTYPE html>",
            "  <html>",
            "    <head>",
            "    \"",
            "    <body>",
            "      <p>",
            "      \"",
            "      <div>",
            "      \"",
            "    \"",
            "  \"",
            "\"",
        ]))
    );
}

#[test]
fn formatting_elements_are_closed_by_the_adoption_agency() {
    assert_eq!(
        dump("<!DOCTYPE html><html><b><i></b></i><br></html>"),
        Some(lines(&[
            "Document",
            "  <!DOCTYPE html>",
            "  <html>",
            "    <head>",
            "    \"",
            "    <body>",
            "      <b>",
            "        <i>",
            "        \"",
            "      \"",
            "      <br>",
            "      \"",
            "    \"",
            "  \"",
            "\"",
        ]))
    );
}

#[test]
fn the_document_starts_with_a_doctype() {
    // Without a doctype the first tag is not handled.
    assert_eq!(dump("<html>"), None);
}

#[test]
fn text_is_not_inserted() {
    assert_eq!(dump("<!DOCTYPE html><html>hi"), None);
}

#[test]
fn the_end_of_the_file_before_the_html_element_is_not_handled() {
    assert_eq!(dump("<!DOCTYPE html>"), None);
}

fn body_with(inner: &[&str]) -> Option<Vec<String>> {
    let mut all = vec!["Document", "  <!DOCTYPE html>", "  <html>", "    <head>", "    \"", "    <body>"];
    all.extend_from_slice(inner);
    all.extend_from_slice(&["    \"", "  \"", "\""]);
    Some(lines(&all))
}

#[test]
fn a_form_start_tag_inserts_a_form_element() {
    assert_eq!(
        dump("<!DOCTYPE html><html><form></form></html>"),
        body_with(&["      <form>", "      \""])
    );
}

#[test]
fn a_stray_paragraph_end_tag_makes_an_empty_paragraph() {
    assert_eq!(
        dump("<!DOCTYPE html><html><div></p></html>"),
        body_with(&["      <div>", "        <p>", "        \"", "      \""])
    );
}

#[test]
fn a_list_item_goes_into_the_open_list() {
    assert_eq!(
        dump("<!DOCTYPE html><html><ul><li></html>"),
        body_with(&["      <ul>", "        <li>", "        \"", "      \""])
    );
}

#[test]
fn a_list_item_start_tag_closes_the_open_list_item() {
    assert_eq!(
        dump("<!DOCTYPE html><html><ul><li><li></html>"),
        body_with(&["      <ul>", "        <li>", "        \"", "        <li>", "        \"", "      \""])
    );
}

#[test]
fn an_end_tag_of_a_block_in_scope_closes_it() {
    assert_eq!(
        dump("<!DOCTYPE html><html><div></div><p></html>"),
        body_with(&["      <div>", "      \"", "      <p>", "      \""])
    );
}

#[test]
fn an_end_tag_of_a_block_not_in_scope_is_ignored() {
    assert_eq!(
        dump("<!DOCTYPE html><html><div></ul><p></html>"),
        body_with(&["      <div>", "        <p>", "        \"", "      \""])
    );
}

#[test]
fn a_list_item_end_tag_closes_the_list_item() {
    assert_eq!(
        dump("<!DOCTYPE html><html><ul><li></li><li></ul><p></html>"),
        body_with(&[
            "      <ul>",
            "        <li>",
            "        \"",
            "        <li>",
            "        \"",
            "      \"",
            "      <p>",
            "      \"",
        ])
    );
}

#[test]
fn a_form_end_tag_closes_the_form() {
    assert_eq!(
        dump("<!DOCTYPE html><html><form></form><p></html>"),
        body_with(&["      <form>", "      \"", "      <p>", "      \""])
    );
}

#[test]
fn a_paragraph_end_tag_closes_the_paragraph() {
    assert_eq!(
        dump("<!DOCTYPE html><html><p></p><div></html>"),
        body_with(&["      <p>", "      \"", "      <div>", "      \""])
    );
}

#[test]
fn a_tag_after_the_html_element_returns_to_the_body_rules() {
    assert_eq!(
        dump("<!DOCTYPE html><html><div></html><p>"),
        body_with(&["      <div>", "      \""])
    );
}

#[test]
fn a_meta_element_goes_into_the_head() {
    assert_eq!(
        dump("<!DOCTYPE html><html><meta><p></p></html>"),
        Some(lines(&[
            "Document",
            "  <!DOCTYPE html>",
            "  <html>",
            "    <head>",
            "      <meta>",
            "      \"",
            "    \"",
            "    <body>",
            "      <p>",
            "      \"",
            "    \"",
            "  \"",
            "\"",
        ]))
    );
}

#[test]
fn an_empty_title_is_parsed_as_text_content() {
    assert_eq!(
        dump("<!DOCTYPE html><html><title></title></head><p></html>"),
        Some(lines(&[
            "Document",
            "  <!DOCTYPE html>",
            "  <html>",
            "    <head>",
            "      <title>",
            "      \"",
            "    \"",
            "    <body>",
            "      <p>",
            "      \"",
            "    \"",
            "  \"",
            "\"",
        ]))
    );
}

#[test]
fn a_script_start_tag_in_the_head_is_not_handled() {
    assert_eq!(dump("<!DOCTYPE html><html><script>"), None);
}
