use org2mdx::render::{push_block, push_block_exact, push_block_n};

#[test]
fn first_block_follows_one_newline() {
    let mut out = String::new();
    push_block_n(&mut out, "a", 1);
    assert_eq!(out, "\na\n");
}

#[test]
fn blocks_get_at_least_the_blank_lines_asked() {
    let mut out = String::from("x\n");
    push_block_n(&mut out, "y", 1);
    assert_eq!(out, "x\n\ny\n");
    let mut out = String::from("x\n\n\n\n");
    push_block_n(&mut out, "y", 1);
    assert_eq!(out, "x\n\n\n\ny\n");
    let mut out = String::from("x");
    push_block(&mut out, "z\n");
    assert_eq!(out, "x\n\nz\n");
}

#[test]
fn exact_blocks_cut_extra_newlines() {
    let mut out = String::from("x\n\n\n\n");
    push_block_exact(&mut out, "y", 1);
    assert_eq!(out, "x\n\ny\n");
    let mut out = String::from("x");
    push_block_exact(&mut out, "y", 0);
    assert_eq!(out, "x\ny\n");
}

#[test]
fn empty_content_changes_nothing() {
    let mut out = String::from("x");
    push_block_n(&mut out, "", 3);
    push_block_exact(&mut out, "", 3);
    assert_eq!(out, "x");
}
