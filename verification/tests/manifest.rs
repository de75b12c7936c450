use allfollow::manifest::{find_bytes, update_flake_nix, PatchError, CR, LF};

const START: &str = "# START INPUT FOLLOW BLOCK -- DO NOT EDIT MANUALLY";
const END: &str = "# END INPUT FOLLOW BLOCK -- DO NOT EDIT MANUALLY";

fn patch(content: &str, config: &str) -> Result<String, PatchError> {
    update_flake_nix(content.as_bytes(), config.as_bytes()).map(|b| String::from_utf8(b).unwrap())
}

#[test]
fn line_ends_are_line_feed_and_carriage_return() {
    assert_eq!(LF, b'\n');
    assert_eq!(CR, b'\r');
}

#[test]
fn find_gives_the_first_occurrence() {
    assert_eq!(find_bytes(b"abcabc", b"bc"), Some(1));
    assert_eq!(find_bytes(b"abcabc", b"abc"), Some(0));
    assert_eq!(find_bytes(b"abcabc", b"cab"), Some(2));
    assert_eq!(find_bytes(b"abcabc", b"abcabc"), Some(0));
    assert_eq!(find_bytes(b"abcabc", b"c"), Some(2));
    assert_eq!(find_bytes(b"abcabc", b"d"), None);
    assert_eq!(find_bytes(b"abc", b"abcd"), None);
    assert_eq!(find_bytes(b"abc", b""), Some(0));
    assert_eq!(find_bytes(b"", b""), Some(0));
    assert_eq!(find_bytes(b"", b"a"), None);
    assert_eq!(find_bytes(b"aab", b"ab"), Some(1));
}

#[test]
fn block_takes_the_indentation_of_the_start_marker() {
    let content = format!("a\n  {START}\n  old\n  {END}\nb\n");
    assert_eq!(
        patch(&content, "x\ny\n\nz"),
        Ok("a\n  x\n  y\n  \n  z\nb\n".to_string())
    );
}

#[test]
fn region_runs_from_the_line_of_the_start_marker_through_the_line_of_the_end_marker() {
    let content = format!("head {START} junk {END} tail");
    assert_eq!(patch(&content, "one\ntwo"), Ok("head one\nhead two".to_string()));
    let content = format!("head {START} junk {END} tail\nnext\n");
    assert_eq!(
        patch(&content, "one\ntwo"),
        Ok("head one\nhead two\nnext\n".to_string())
    );
    let content = format!("{START}{END}");
    assert_eq!(patch(&content, "one\ntwo"), Ok("one\ntwo".to_string()));
    let content = format!("\t{START}\n\t{END}\n");
    assert_eq!(patch(&content, "one\ntwo"), Ok("\tone\n\ttwo\n".to_string()));
}

#[test]
fn text_behind_the_end_marker_on_its_line_goes_with_the_region() {
    let content = format!("a\n  {START}\n  old\n  {END} tail\nb\n");
    let out = patch(&content, "x").unwrap();
    assert_eq!(out, "a\n  x\nb\n");
    assert!(!out.contains(" tail"));
    let content = format!("a\n  {START}\n  old\n  {END}\r\nb\n");
    assert_eq!(patch(&content, "x"), Ok("a\n  x\nb\n".to_string()));
    let content = format!("a\n  {START}\n  old\n  {END}");
    assert_eq!(patch(&content, "x"), Ok("a\n  x".to_string()));
}

#[test]
fn lines_of_the_block_end_at_line_feeds() {
    let content = format!("_{START}{END}\n~");
    assert_eq!(patch(&content, ""), Ok("\n~".to_string()));
    assert_eq!(patch(&content, "a"), Ok("_a\n~".to_string()));
    assert_eq!(patch(&content, "a\n"), Ok("_a\n~".to_string()));
    assert_eq!(patch(&content, "\n"), Ok("_\n~".to_string()));
    assert_eq!(patch(&content, "\n\n"), Ok("_\n_\n~".to_string()));
    assert_eq!(patch(&content, "a\r\nb"), Ok("_a\n_b\n~".to_string()));
    assert_eq!(patch(&content, "a\r\nb\r\n"), Ok("_a\n_b\n~".to_string()));
    assert_eq!(patch(&content, "a\rb\r"), Ok("_a\rb\r\n~".to_string()));
    assert_eq!(patch(&content, "a\n\rb"), Ok("_a\n_\rb\n~".to_string()));
    assert_eq!(patch(&content, "\r\n"), Ok("_\n~".to_string()));
}

#[test]
fn only_the_first_markers_count() {
    let content = format!("{START}\n1\n{END}\n{START}\n2\n{END}\n");
    assert_eq!(
        patch(&content, "x"),
        Ok(format!("x\n{START}\n2\n{END}\n"))
    );
}

#[test]
fn missing_markers_are_refused() {
    assert_eq!(patch("", "x"), Err(PatchError::ManifestMarkersMissing));
    assert_eq!(
        patch(&format!("a\n{START}\n"), "x"),
        Err(PatchError::ManifestMarkersMissing)
    );
    assert_eq!(
        patch(&format!("a\n{END}\n"), "x"),
        Err(PatchError::ManifestMarkersMissing)
    );
    assert_eq!(
        patch("# START INPUT FOLLOW BLOCK\n# END INPUT FOLLOW BLOCK\n", "x"),
        Err(PatchError::ManifestMarkersMissing)
    );
}

#[test]
fn markers_out_of_order_are_refused() {
    assert_eq!(
        patch(&format!("{END}\n{START}\n"), "x"),
        Err(PatchError::ManifestMarkersOutOfOrder)
    );
    assert_eq!(
        patch(&format!("{END}\n{START}\n{END}\n"), "x"),
        Err(PatchError::ManifestMarkersOutOfOrder)
    );
}

#[test]
fn text_of_more_than_one_byte_a_character_passes_through() {
    let content = format!("ä→\n  é{START}\n{END}ß\nø\n");
    assert_eq!(patch(&content, "ü\nö"), Ok("ä→\n  éü\n  éö\nø\n".to_string()));
}
