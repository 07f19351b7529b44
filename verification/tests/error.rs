use vostok_pdb_parser::error::{anyhow_to_err, ToolError};

#[test]
fn the_message_tells_the_whole_chain() {
    let e = anyhow::Error::msg("inner").context("middle").context("outer");
    assert_eq!(anyhow_to_err(e).message, "outer: middle: inner");
}

#[test]
fn a_single_error_is_its_own_message() {
    assert_eq!(anyhow_to_err(anyhow::Error::msg("alone")).message, "alone");
    assert_eq!(ToolError::new("plain".to_string()).message, "plain");
}
