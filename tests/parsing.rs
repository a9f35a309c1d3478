use bfc::{parse, AstNode, ByteStream, Node, ParseError};

fn parse_str(text: &str) -> Result<Vec<Node<AstNode>>, Vec<ParseError>> {
    parse(ByteStream::from_str(String::from("prog.b"), text))
}

fn at(n: &Node<AstNode>, line: u64, column: u64) -> bool {
    n.loc.file == "prog.b" && n.loc.line == line && n.loc.column == column
}

fn error_at(e: &ParseError, message: &str, line: u64, column: u64) -> bool {
    e.message() == message && e.loc().line == line && e.loc().column == column
}

#[test]
fn scenario_increment_loop_read_write() {
    let tree = parse_str("++[,.]").expect("well bracketed");
    assert_eq!(tree.len(), 2);
    assert!(matches!(tree[0].val, AstNode::Increment(2)));
    assert!(at(&tree[0], 1, 1));
    match &tree[1].val {
        AstNode::Loop(body) => {
            assert_eq!(body.len(), 2);
            assert!(matches!(body[0].val, AstNode::GetChar()));
            assert!(at(&body[0], 1, 4));
            assert!(matches!(body[1].val, AstNode::PutChar()));
            assert!(at(&body[1], 1, 5));
        }
        _ => panic!("expected a loop"),
    }
    assert!(at(&tree[1], 1, 3));
}

#[test]
fn scenario_lone_opener() {
    let errs = parse_str("[").unwrap_err();
    assert_eq!(errs.len(), 1);
    assert!(error_at(&errs[0], "Unterminated loop", 1, 1));
}

#[test]
fn scenario_lone_closer() {
    let errs = parse_str("]").unwrap_err();
    assert_eq!(errs.len(), 1);
    assert!(error_at(&errs[0], "No loop to terminate", 1, 1));
}

#[test]
fn round_trip_drops_comments() {
    let text = "+a+[->>\n<. x]  ,, end";
    let tree = parse_str(text).expect("well bracketed");
    let rendered = bfc::syntax::render_tree(&tree);
    assert_eq!(rendered, b"++[->><.],,".to_vec());
}

#[test]
fn round_trip_nested_loops() {
    let text = "[[-]>[+<]]";
    let tree = parse_str(text).expect("well bracketed");
    assert_eq!(bfc::syntax::render_tree(&tree), text.as_bytes().to_vec());
    assert_eq!(tree.len(), 1);
    assert_eq!(tree[0].val.render(), text.as_bytes().to_vec());
}

#[test]
fn excess_closers_each_reported() {
    let errs = parse_str("]+]").unwrap_err();
    assert_eq!(errs.len(), 2);
    assert!(error_at(&errs[0], "No loop to terminate", 1, 1));
    assert!(error_at(&errs[1], "No loop to terminate", 1, 3));
}

#[test]
fn closer_errors_come_before_open_loops() {
    let errs = parse_str("]]+[").unwrap_err();
    assert_eq!(errs.len(), 3);
    assert!(error_at(&errs[0], "No loop to terminate", 1, 1));
    assert!(error_at(&errs[1], "No loop to terminate", 1, 2));
    assert!(error_at(&errs[2], "Unterminated loop", 1, 4));
}

#[test]
fn open_loops_reported_innermost_first() {
    let errs = parse_str("[\n [ [-]").unwrap_err();
    assert_eq!(errs.len(), 2);
    assert!(error_at(&errs[0], "Unterminated loop", 2, 2));
    assert!(error_at(&errs[1], "Unterminated loop", 1, 1));
}

#[test]
fn run_of_one_kind_is_one_node() {
    for k in 1..20usize {
        for op in ["+", "-", ">", "<"] {
            let text = op.repeat(k);
            let tree = parse_str(&text).expect("no loops");
            assert_eq!(tree.len(), 1);
            assert!(at(&tree[0], 1, 1));
            let n = k as u64;
            let ok = match tree[0].val {
                AstNode::Increment(c) => op == "+" && c == n,
                AstNode::Decrement(c) => op == "-" && c == n,
                AstNode::Next(c) => op == ">" && c == n,
                AstNode::Previous(c) => op == "<" && c == n,
                _ => false,
            };
            assert!(ok);
        }
    }
}

#[test]
fn comment_breaks_a_run() {
    let tree = parse_str("+x+").expect("no loops");
    assert_eq!(tree.len(), 2);
    assert!(matches!(tree[0].val, AstNode::Increment(1)));
    assert!(at(&tree[0], 1, 1));
    assert!(matches!(tree[1].val, AstNode::Increment(1)));
    assert!(at(&tree[1], 1, 3));
}

#[test]
fn reads_and_writes_are_not_counted() {
    let tree = parse_str("..,").expect("no loops");
    assert_eq!(tree.len(), 3);
    assert!(matches!(tree[0].val, AstNode::PutChar()));
    assert!(matches!(tree[1].val, AstNode::PutChar()));
    assert!(matches!(tree[2].val, AstNode::GetChar()));
    assert!(at(&tree[2], 1, 3));
}

#[test]
fn locations_follow_lines() {
    let tree = parse_str("+\n\n  >>\n<").expect("no loops");
    assert_eq!(tree.len(), 3);
    assert!(at(&tree[0], 1, 1));
    assert!(matches!(tree[1].val, AstNode::Next(2)));
    assert!(at(&tree[1], 3, 3));
    assert!(at(&tree[2], 4, 1));
}

#[test]
fn empty_input_is_empty_tree() {
    let tree = parse_str("").expect("nothing to close");
    assert!(tree.is_empty());
    let tree = parse_str("only words\n").expect("nothing to close");
    assert!(tree.is_empty());
}

#[test]
fn parse_starts_where_the_stream_stands() {
    let mut bs = ByteStream::from_str(String::from("prog.b"), "]+");
    assert!(bs.next());
    let tree = parse(bs).expect("the closer was passed");
    assert_eq!(tree.len(), 1);
    assert!(at(&tree[0], 1, 2));
}

#[test]
fn parse_error_accessors() {
    let loc = bfc::Location { file: String::from("f"), line: 3, column: 9 };
    let e = ParseError::new(String::from("msg"), loc.clone());
    assert_eq!(e.message(), "msg");
    assert_eq!(e.loc(), &loc);
}

#[test]
fn node_equality_ignores_location() {
    let a = parse_str("++[,.]").expect("well bracketed");
    let b = parse_str("++ [\n , . ]").expect("well bracketed");
    assert_eq!(a, b);
    let c = parse_str("++[.,]").expect("well bracketed");
    assert_ne!(a, c);
}
