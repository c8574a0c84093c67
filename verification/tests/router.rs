use submillisecond::params::Params;
use submillisecond::router::error::{InsertError, MatchError};
use submillisecond::router::tree::{shift_n_bytes, ConstNode, Node, NodeType};
use submillisecond::router::Router;

fn leaf<'a>(node_type: NodeType, prefix: &'a [u8], value: &'a [u32]) -> ConstNode<'a, u32> {
    ConstNode {
        priority: 1,
        wild_child: false,
        indices: &[],
        node_type,
        value,
        prefix,
        children: Vec::new(),
    }
}

fn users_tree() -> ConstNode<'static, u32> {
    let param = leaf(NodeType::Param, b":id", &[7]);
    let users = ConstNode {
        priority: 1,
        wild_child: true,
        indices: &[],
        node_type: NodeType::Static,
        value: &[],
        prefix: b"users/",
        children: vec![param],
    };
    ConstNode {
        priority: 1,
        wild_child: false,
        indices: b"u",
        node_type: NodeType::Root,
        value: &[],
        prefix: b"/",
        children: vec![users],
    }
}

fn param_pairs(params: &Params) -> Vec<(String, String)> {
    let mut out = Vec::new();
    let mut it = params.iter();
    while let Some((k, v)) = it.next() {
        out.push((k.to_string(), v.to_string()));
    }
    out
}

#[test]
fn at_finds_param_route() {
    let root = users_tree();
    let (value, params) = root.at(b"/users/42").unwrap();
    assert_eq!(value, &[7]);
    assert_eq!(param_pairs(&params), vec![("id".to_string(), "42".to_string())]);
}

#[test]
fn at_reports_extra_trailing_slash() {
    let root = users_tree();
    assert_eq!(root.at(b"/users/42/").unwrap_err(), MatchError::ExtraTrailingSlash);
}

#[test]
fn at_reports_not_found() {
    let root = users_tree();
    assert_eq!(root.at(b"/nope").unwrap_err(), MatchError::NotFound);
}

#[test]
fn router_at_and_fix_path() {
    let router = Router::from_node(users_tree());
    let m = router.at("/users/9").unwrap();
    assert_eq!(m.value, &[7]);
    assert_eq!(m.params.get("id"), Some("9"));
    assert_eq!(router.fix_path("/USERS/9"), Some("/users/9".to_string()));
    assert_eq!(router.fix_path("/other"), None);
}

#[test]
fn check_priorities_counts_values() {
    let root = users_tree();
    assert_eq!(root.check_priorities(), Ok(1));
    let mut bad = users_tree();
    bad.priority = 5;
    assert_eq!(bad.check_priorities(), Err((5, 1)));
}

#[test]
fn insert_into_empty_tree() {
    let mut root: Node<u32> = Node::default();
    root.insert("/users/:id".to_string(), 1).unwrap();
    assert_eq!(root.node_type, NodeType::Root);
    assert_eq!(root.prefix, b"/users/".to_vec());
    assert!(root.wild_child);
    assert_eq!(root.priority, 1);
    assert_eq!(root.children.len(), 1);
    let child = &root.children[0];
    assert_eq!(child.node_type, NodeType::Param);
    assert_eq!(child.prefix, b":id".to_vec());
    assert_eq!(child.value, vec![1]);
    assert_eq!(child.priority, 1);
}

#[test]
fn insert_conflicting_wildcard() {
    let mut root: Node<u32> = Node::default();
    root.insert("/users/:id".to_string(), 1).unwrap();
    assert_eq!(
        root.insert("/users/:name".to_string(), 2),
        Err(InsertError::Conflict { with: "/users/:id".to_string() })
    );
    // a refused insert still counts in the root's priority
    assert_eq!(root.priority, 2);
}

fn node_ok(n: &Node<u32>) -> bool {
    let wild = if n.wild_child { 1 } else { 0 };
    let distinct = n.indices.iter().enumerate().all(|(i, a)| n.indices[i + 1..].iter().all(|b| a != b));
    let last_wild = !n.wild_child
        || matches!(n.children.last().map(|c| c.node_type), Some(NodeType::Param) | Some(NodeType::CatchAll));
    let indexed_static = n.children.iter().zip(n.indices.iter()).all(|(c, i)| {
        c.node_type == NodeType::Static && (c.prefix.is_empty() || c.prefix[0] == *i)
    });
    let sorted = n.children.iter().take(n.indices.len()).zip(n.children.iter().take(n.indices.len()).skip(1)).all(|(a, b)| a.priority >= b.priority);
    let param_ok = n.node_type != NodeType::Param
        || (!n.wild_child && n.children.len() <= 1 && n.children.iter().all(|c| c.node_type == NodeType::Static));
    (!n.wild_child || !n.children.is_empty())
        && n.indices.len() <= n.children.len()
        && distinct
        && (n.node_type == NodeType::Param || n.children.len() == n.indices.len() + wild)
        && last_wild
        && indexed_static
        && sorted
        && param_ok
}

fn well_formed(n: &Node<u32>) -> bool {
    node_ok(n) && n.children.iter().all(well_formed)
}

#[test]
fn inserts_keep_the_tree_well_formed() {
    let mut root: Node<u32> = Node::default();
    let routes = [
        "/", "/users/:id", "/users/:id/posts", "/files/*path", "/about", "/abc", "/a/:x", "/a/:x:y",
        "/users/:name", "/b/*c/d", "/abd", "/users/:id/", "/a/:x/*rest",
    ];
    for (i, r) in routes.iter().enumerate() {
        let _ = root.insert(r.to_string(), i as u32);
        assert!(well_formed(&root));
    }
    assert_eq!(root.priority, routes.len() as u32);
}

#[test]
fn insert_below_param() {
    let mut root: Node<u32> = Node::default();
    root.insert("/users/:id".to_string(), 1).unwrap();
    root.insert("/users/:id/posts".to_string(), 2).unwrap();
    let param = &root.children[0];
    assert_eq!(param.indices, b"/".to_vec());
    assert_eq!(param.children.len(), 1);
    assert_eq!(param.children[0].prefix, b"/posts".to_vec());
    assert_eq!(param.children[0].value, vec![2]);
    assert_eq!(root.priority, 2);
    assert_eq!(param.priority, 2);
}

#[test]
fn insert_static_split() {
    let mut root: Node<u32> = Node::default();
    root.insert("/abc".to_string(), 1).unwrap();
    root.insert("/abd".to_string(), 2).unwrap();
    assert_eq!(root.prefix, b"/ab".to_vec());
    assert_eq!(root.indices, b"cd".to_vec());
    assert_eq!(root.children.len(), 2);
    assert_eq!(root.children[0].prefix, b"c".to_vec());
    assert_eq!(root.children[1].prefix, b"d".to_vec());
    assert_eq!(root.children[1].value, vec![2]);
}

#[test]
fn insert_errors() {
    let mut root: Node<u32> = Node::default();
    assert_eq!(root.insert("/a/:b:c".to_string(), 1), Err(InsertError::TooManyParams));
    let mut root: Node<u32> = Node::default();
    assert_eq!(root.insert("/a/:".to_string(), 1), Err(InsertError::UnnamedParam));
    let mut root: Node<u32> = Node::default();
    assert_eq!(root.insert("/a/*x/b".to_string(), 1), Err(InsertError::InvalidCatchAll));
}

#[test]
fn shift_n_bytes_moves_left() {
    assert_eq!(shift_n_bytes([1, 2, 3, 4], 1), [2, 3, 4, 0]);
    assert_eq!(shift_n_bytes([1, 2, 3, 4], 4), [0, 0, 0, 0]);
    assert_eq!(shift_n_bytes([1, 2, 3, 4], 0), [1, 2, 3, 4]);
    assert_eq!(shift_n_bytes([1, 2, 3, 4], 1 << 29), [0, 0, 0, 0]);
    assert_eq!(shift_n_bytes([1, 2, 3, 4], usize::MAX), [0, 0, 0, 0]);
}

fn freeze(n: &Node<u32>) -> ConstNode<'_, u32> {
    ConstNode {
        priority: n.priority,
        wild_child: n.wild_child,
        indices: &n.indices,
        node_type: n.node_type.clone(),
        value: &n.value,
        prefix: &n.prefix,
        children: n.children.iter().map(freeze).collect(),
    }
}

#[test]
fn insert_then_at_finds_the_value() {
    let mut root: Node<u32> = Node::default();
    root.insert("/home".to_string(), 7).unwrap();
    let frozen = freeze(&root);
    let (values, params) = frozen.at(b"/home").unwrap();
    assert_eq!(values, &[7]);
    assert!(param_pairs(&params).is_empty());
    root.insert("/about".to_string(), 8).unwrap();
    root.insert("/users/:id".to_string(), 9).unwrap();
    let frozen = freeze(&root);
    assert_eq!(frozen.at(b"/home").unwrap().0, &[7]);
    assert_eq!(frozen.at(b"/about").unwrap().0, &[8]);
    let (values, params) = frozen.at(b"/users/5").unwrap();
    assert_eq!(values, &[9]);
    assert_eq!(param_pairs(&params), vec![("id".to_string(), "5".to_string())]);
}

#[test]
fn check_priorities_passes_only_on_consistent_trees() {
    let mut root: Node<u32> = Node::default();
    root.insert("/home".to_string(), 1).unwrap();
    root.insert("/home/:id".to_string(), 2).unwrap();
    let frozen = freeze(&root);
    assert_eq!(frozen.check_priorities(), Ok(2));
    let mut bad = users_tree();
    bad.children[0].children[0].priority = 3;
    assert_eq!(bad.check_priorities(), Err((3, 1)));
}

#[test]
fn insert_then_fix_path_gives_the_route() {
    let mut root: Node<u32> = Node::default();
    root.insert("/home".to_string(), 1).unwrap();
    let frozen = freeze(&root);
    assert_eq!(frozen.fix_path("/HoMe/"), Some("/home".to_string()));
    assert_eq!(frozen.fix_path("/HOME"), Some("/home".to_string()));
    assert_eq!(frozen.fix_path("/"), None);
    assert_eq!(frozen.fix_path("/homes"), None);
}

fn values_spelled<'n>(n: &'n Node<u32>, above: &[u8], route: &[u8]) -> Vec<&'n Vec<u32>> {
    let mut here = above.to_vec();
    here.extend_from_slice(&n.prefix);
    let mut out = Vec::new();
    if here == route {
        out.push(&n.value);
    }
    for c in &n.children {
        out.extend(values_spelled(c, &here, route));
    }
    out
}

#[test]
fn insert_places_the_value_where_the_route_is_spelled() {
    let mut root: Node<u32> = Node::default();
    let routes = ["/home", "/hello", "/users/:id", "/users/:id/posts", "/files/*path", "/h"];
    for (i, r) in routes.iter().enumerate() {
        root.insert(r.to_string(), i as u32).unwrap();
        let spelled = values_spelled(&root, &[], r.as_bytes());
        assert!(spelled.iter().any(|v| v.last() == Some(&(i as u32))));
    }
}

#[test]
fn match_gives_the_route_that_spells_the_path() {
    let mut root: Node<u32> = Node::default();
    root.insert("/users/new".to_string(), 1).unwrap();
    root.insert("/users/:id".to_string(), 2).unwrap();
    root.insert("/users/:id/posts".to_string(), 3).unwrap();
    root.insert("/files/*path".to_string(), 4).unwrap();
    let frozen = freeze(&root);
    let (values, params) = frozen.at(b"/users/new").unwrap();
    assert_eq!(values, &[1]);
    assert!(param_pairs(&params).is_empty());
    // the static branch "new" fails on "nex": the walk comes back to the param
    let (values, params) = frozen.at(b"/users/nex").unwrap();
    assert_eq!(values, &[2]);
    assert_eq!(param_pairs(&params), vec![("id".to_string(), "nex".to_string())]);
    let (values, params) = frozen.at(b"/users/7/posts").unwrap();
    assert_eq!(values, &[3]);
    assert_eq!(param_pairs(&params), vec![("id".to_string(), "7".to_string())]);
    let (values, params) = frozen.at(b"/files/a/b.txt").unwrap();
    assert_eq!(values, &[4]);
    assert_eq!(param_pairs(&params), vec![("path".to_string(), "a/b.txt".to_string())]);
}

fn prefixes_set(n: &Node<u32>) -> bool {
    n.children.iter().enumerate().all(|(i, c)| {
        prefixes_set(c)
            && (i >= n.indices.len() || (!c.prefix.is_empty() && c.prefix[0] == n.indices[i]))
            && (n.node_type != NodeType::Param || c.prefix.is_empty() || c.prefix[0] == b'/')
    })
}

#[test]
fn successful_inserts_keep_index_bytes_on_prefixes() {
    let mut root: Node<u32> = Node::default();
    let routes = ["/", "/users/:id", "/users/:id/posts", "/users/new", "/files/*path", "/about", "/abc", "/a/:x/y"];
    for (i, r) in routes.iter().enumerate() {
        root.insert(r.to_string(), i as u32).unwrap();
        assert!(well_formed(&root));
        assert!(prefixes_set(&root));
    }
}
