use gm_unleashed_md::{extract_links, tokenize};

const SAMPLE_TEXT: &str = "Some Text";
const LINK_TARGET_1: &str = "A link";
const LINK_TARGET_2: &str = "My link";

#[test]
fn no_links() {
    assert_eq!(extract_links(&tokenize(SAMPLE_TEXT)).len(), 0);
}

#[test]
fn single_link() {
    let links = extract_links(&tokenize(&format!("[{}]({})", SAMPLE_TEXT, LINK_TARGET_1)));
    assert_eq!(links.len(), 1);
    assert_eq!(links[0].target(), LINK_TARGET_1);
}

#[test]
fn double_link() {
    let links = extract_links(&tokenize(&format!(
        "[{}]({}) blabla [{}]({})",
        SAMPLE_TEXT, LINK_TARGET_1, SAMPLE_TEXT, LINK_TARGET_2
    )));
    assert_eq!(links.len(), 2);
    assert_eq!(links[0].target(), LINK_TARGET_1);
    assert_eq!(links[1].target(), LINK_TARGET_2);
}

#[test]
fn no_links_but_brackets() {
    assert_eq!(extract_links(&tokenize(&format!("{} ({})", SAMPLE_TEXT, SAMPLE_TEXT))).len(), 0);
}
