use spadefmt::comment_insertion::{Comment, CommentMap};

#[test]
fn line_of_counts_line_feeds() {
    let source = "a\nbc\n\nd";
    let map = CommentMap::new(&[], source);
    assert_eq!(map.line_of(0), 0);
    assert_eq!(map.line_of(2), 1);
    assert_eq!(map.line_of(5), 2);
    assert_eq!(map.line_of(6), 3);
}

#[test]
fn own_line_comment_leads_the_next_construct() {
    let source = "// note\nuse a;\n";
    let mut map = CommentMap::new(&[Comment::Line(0..7)], source);
    let taken = map.take_leading(8);
    assert_eq!(taken.len(), 1);
    assert_eq!(taken[0].text, "// note");
    assert_eq!(taken[0].start_line, 0);
    assert!(!taken[0].inline);
    assert!(taken[0].is_line);
    // Claimed once: a second claim finds nothing.
    assert!(map.take_leading(8).is_empty());
    assert!(map.take_rest(source.len()).is_empty());
    assert_eq!(map.misplaced(), 0);
}

#[test]
fn trailing_comment_follows_its_construct() {
    let source = "use a; // why\nuse b;";
    let mut map = CommentMap::new(&[Comment::Line(7..13)], source);
    assert!(map.take_leading(14).is_empty());
    let taken = map.take_trailing(6, 0);
    assert_eq!(taken.len(), 1);
    assert_eq!(taken[0].text, "// why");
}

#[test]
fn inline_block_comment_leads_inline() {
    let source = "f(/* x */ a)";
    let mut map = CommentMap::new(&[Comment::Block(2..4, 7..9)], source);
    let taken = map.take_inline_leading(10);
    assert_eq!(taken.len(), 1);
    assert_eq!(taken[0].text, "/* x */");
    assert!(taken[0].inline);
}

#[test]
fn take_within_claims_everything_inside() {
    let source = "{ /* a */ // b\n}";
    let mut map = CommentMap::new(&[Comment::Block(2..4, 7..9), Comment::Line(10..14)], source);
    let taken = map.take_within(&(0..16));
    assert_eq!(taken.len(), 2);
    assert_eq!(taken[0].text, "/* a */");
    assert_eq!(taken[1].text, "// b");
}

#[test]
fn forces_break_on_line_comments() {
    let source = "(a, // x\n b)";
    let map = CommentMap::new(&[Comment::Line(4..8)], source);
    assert!(map.forces_break(&(0..12)));
    assert!(!map.forces_break(&(9..12)));
}

#[test]
fn unclaimed_comments_are_never_lost() {
    let source = "// one\nuse a;\n// two\n";
    let mut map = CommentMap::new(&[Comment::Line(0..6), Comment::Line(14..20)], source);
    let rest = map.take_rest(0);
    assert_eq!(rest.len(), 2);
    assert_eq!(rest[0].text, "// one");
    assert_eq!(rest[1].text, "// two");
    assert_eq!(map.misplaced(), 0);
}

#[test]
fn unclaimed_comments_before_the_boundary_count_as_misplaced() {
    let source = "// one\nuse a;\n";
    let mut map = CommentMap::new(&[Comment::Line(0..6)], source);
    let rest = map.take_rest(13);
    assert_eq!(rest.len(), 1);
    assert_eq!(map.misplaced(), 1);
}

#[test]
fn comments_starting_inside_another_are_dropped() {
    let source = "/* a // b */";
    let map_comments = [Comment::Block(0..2, 10..12), Comment::Line(5..9)];
    let mut map = CommentMap::new(&map_comments, source);
    let rest = map.take_rest(0);
    assert_eq!(rest.len(), 1);
    assert_eq!(rest[0].text, "/* a // b */");
}
