use openvaf::node_validation::{verify_node, NodeDecl, NodeDiagnostic, NodeInfo};

fn decl(ast_id: u32, is_port: bool, discipline: Option<u32>, resolves: bool, is_gnd: bool) -> NodeDecl {
    NodeDecl { ast_id, is_port, discipline, discipline_resolves: resolves, is_gnd }
}

const NODE: NodeInfo = NodeInfo { id: 3, ast_id: 10, name: 7 };

#[test]
fn undeclared_node() {
    assert_eq!(
        verify_node(&NODE, &vec![]),
        vec![
            NodeDiagnostic::PortWithoutDirection { decl: 10, name: 7 },
            NodeDiagnostic::NodeWithoutDiscipline { decl: 10, name: 7 },
        ]
    );
}

#[test]
fn well_declared_port() {
    let decls = vec![decl(10, true, None, false, false), decl(11, false, Some(1), true, false)];
    assert_eq!(verify_node(&NODE, &decls), vec![]);
}

#[test]
fn header_port_without_direction() {
    let decls = vec![decl(12, false, Some(1), true, false)];
    assert_eq!(verify_node(&NODE, &decls), vec![NodeDiagnostic::PortWithoutDirection { decl: 10, name: 7 }]);
    let own = vec![decl(10, false, Some(1), true, false)];
    assert_eq!(verify_node(&NODE, &own), vec![]);
}

#[test]
fn duplicate_declarations() {
    let decls = vec![
        decl(10, true, Some(1), true, true),
        decl(11, true, Some(2), false, true),
        decl(12, true, None, false, false),
        decl(13, false, Some(4), false, true),
    ];
    assert_eq!(
        verify_node(&NODE, &decls),
        vec![
            NodeDiagnostic::MultipleDirections { node: 3, first: 10, subsequent: vec![11, 12] },
            NodeDiagnostic::UnresolvedDiscipline { decl: 11, name: 2 },
            NodeDiagnostic::UnresolvedDiscipline { decl: 13, name: 4 },
            NodeDiagnostic::MultipleDisciplines { node: 3, first: 10, subsequent: vec![11, 13] },
            NodeDiagnostic::MultipleGnds { node: 3, first: 10, subsequent: vec![11, 13] },
        ]
    );
}

#[test]
fn missing_discipline() {
    let decls = vec![decl(10, true, None, false, false)];
    assert_eq!(verify_node(&NODE, &decls), vec![NodeDiagnostic::NodeWithoutDiscipline { decl: 10, name: 7 }]);
}
