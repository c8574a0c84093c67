use submillisecond::router::tree::{ConstNode, NodeType};

fn node<'a>(prefix: &'a [u8], indices: &'a [u8], value: &'a [u8], children: Vec<ConstNode<'a, u8>>) -> ConstNode<'a, u8> {
    ConstNode { priority: 1, wild_child: false, indices, node_type: NodeType::Static, value, prefix, children }
}

#[test]
fn fix_path_case_and_slash() {
    // routes "/about" and "/blog/"
    let about = node(b"about", b"", &[1], vec![]);
    let slash = node(b"/", b"", &[2], vec![]);
    let blog = node(b"blog", b"/", &[], vec![slash]);
    let root = ConstNode { node_type: NodeType::Root, ..node(b"/", b"ab", &[], vec![about, blog]) };
    assert_eq!(root.fix_path("/ABOUT"), Some("/about".to_string()));
    assert_eq!(root.fix_path("/About/"), Some("/about".to_string()));
    assert_eq!(root.fix_path("/BLOG"), Some("/blog/".to_string()));
    assert_eq!(root.fix_path("/nothing"), None);
}

#[test]
fn fix_path_of_a_bare_slash_needs_a_route() {
    // the single route "/home"
    let root = ConstNode { node_type: NodeType::Root, ..node(b"/home", b"", &[1], vec![]) };
    assert_eq!(root.fix_path("/"), None);
    assert_eq!(root.fix_path("/HOME/"), Some("/home".to_string()));
}

#[test]
fn fix_path_drops_a_slash_where_the_parent_holds_a_value() {
    // routes "/a" and "/a/bc"
    let bc = node(b"/bc", b"", &[2], vec![]);
    let root = ConstNode { node_type: NodeType::Root, ..node(b"/a", b"/", &[1], vec![bc]) };
    assert_eq!(root.fix_path("/A/"), Some("/a".to_string()));
    assert_eq!(root.fix_path("/a/BC"), Some("/a/bc".to_string()));
    // routes "/b/cd" only: "/b/" names no route
    let cd = node(b"cd", b"", &[3], vec![]);
    let root = ConstNode { node_type: NodeType::Root, ..node(b"/b/", b"c", &[], vec![cd]) };
    assert_eq!(root.fix_path("/b/"), None);
}
