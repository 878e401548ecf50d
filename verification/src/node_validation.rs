//! The checks of the declarations of a net: its direction, its discipline and its ground
//! declaration must each be given once, and its discipline must name a discipline.
use vstd::prelude::*;

verus! {

/// A net as the checks see it: its number, the syntax node of its first declaration and
/// its name.
#[derive(Clone, Copy, Debug, PartialEq, Eq)]
pub struct NodeInfo {
    pub id: u32,
    pub ast_id: u32,
    pub name: u32,
}

/// One declaration of a net: its syntax node; whether it is a port direction
/// (`input`, `output`, `inout`); the name of the discipline it gives, if any, and
/// whether that name resolves to a discipline; whether it declares the net `ground`.
#[derive(Clone, Copy, Debug, PartialEq, Eq)]
pub struct NodeDecl {
    pub ast_id: u32,
    pub is_port: bool,
    pub discipline: Option<u32>,
    pub discipline_resolves: bool,
    pub is_gnd: bool,
}

/// A problem found with the declarations of a net.
#[derive(Clone, Debug, PartialEq, Eq)]
pub enum NodeDiagnostic {
    /// A port of the module without a direction declaration.
    PortWithoutDirection { decl: u32, name: u32 },
    /// A net without a discipline.
    NodeWithoutDiscipline { decl: u32, name: u32 },
    /// Several direction declarations: the first and the later ones.
    MultipleDirections { node: u32, first: u32, subsequent: Vec<u32> },
    /// A discipline name that names no discipline.
    UnresolvedDiscipline { decl: u32, name: u32 },
    /// Several discipline declarations.
    MultipleDisciplines { node: u32, first: u32, subsequent: Vec<u32> },
    /// Several ground declarations.
    MultipleGnds { node: u32, first: u32, subsequent: Vec<u32> },
}

/// A diagnostic with its lists as sequences.
pub enum NodeDiagnosticView {
    PortWithoutDirection { decl: u32, name: u32 },
    NodeWithoutDiscipline { decl: u32, name: u32 },
    MultipleDirections { node: u32, first: u32, subsequent: Seq<u32> },
    UnresolvedDiscipline { decl: u32, name: u32 },
    MultipleDisciplines { node: u32, first: u32, subsequent: Seq<u32> },
    MultipleGnds { node: u32, first: u32, subsequent: Seq<u32> },
}

/// The diagnostic `d` with its lists as sequences.
pub open spec fn diag_view(d: NodeDiagnostic) -> NodeDiagnosticView {
    match d {
        NodeDiagnostic::PortWithoutDirection { decl, name } => NodeDiagnosticView::PortWithoutDirection { decl, name },
        NodeDiagnostic::NodeWithoutDiscipline { decl, name } => NodeDiagnosticView::NodeWithoutDiscipline { decl, name },
        NodeDiagnostic::MultipleDirections { node, first, subsequent } => NodeDiagnosticView::MultipleDirections {
            node,
            first,
            subsequent: subsequent@,
        },
        NodeDiagnostic::UnresolvedDiscipline { decl, name } => NodeDiagnosticView::UnresolvedDiscipline { decl, name },
        NodeDiagnostic::MultipleDisciplines { node, first, subsequent } => NodeDiagnosticView::MultipleDisciplines {
            node,
            first,
            subsequent: subsequent@,
        },
        NodeDiagnostic::MultipleGnds { node, first, subsequent } => NodeDiagnosticView::MultipleGnds {
            node,
            first,
            subsequent: subsequent@,
        },
    }
}

/// The diagnostics `s` with their lists as sequences.
pub open spec fn views(s: Seq<NodeDiagnostic>) -> Seq<NodeDiagnosticView> {
    s.map_values(|d: NodeDiagnostic| diag_view(d))
}

/// Adding a diagnostic adds its view.
proof fn lemma_views_push(s: Seq<NodeDiagnostic>, d: NodeDiagnostic)
    ensures
        views(s.push(d)) == views(s).push(diag_view(d)),
{
    assert(views(s.push(d)) =~= views(s).push(diag_view(d)));
}

/// The syntax nodes of the direction declarations among `ds`, in order.
pub open spec fn port_ids(ds: Seq<NodeDecl>) -> Seq<u32>
    decreases ds.len(),
{
    if ds.len() == 0 {
        Seq::empty()
    } else {
        port_ids(ds.drop_last()) + if ds.last().is_port { seq![ds.last().ast_id] } else { Seq::empty() }
    }
}

/// The declarations among `ds` that give a discipline, in order.
pub open spec fn discipline_decls(ds: Seq<NodeDecl>) -> Seq<NodeDecl>
    decreases ds.len(),
{
    if ds.len() == 0 {
        Seq::empty()
    } else {
        discipline_decls(ds.drop_last()) + if ds.last().discipline is Some { seq![ds.last()] } else { Seq::empty() }
    }
}

/// The syntax nodes of the ground declarations among `ds`, in order.
pub open spec fn gnd_ids(ds: Seq<NodeDecl>) -> Seq<u32>
    decreases ds.len(),
{
    if ds.len() == 0 {
        Seq::empty()
    } else {
        gnd_ids(ds.drop_last()) + if ds.last().is_gnd { seq![ds.last().ast_id] } else { Seq::empty() }
    }
}

/// An error for each declaration among `ds` whose discipline name resolves to no
/// discipline, in order.
pub open spec fn unresolved(ds: Seq<NodeDecl>) -> Seq<NodeDiagnosticView>
    decreases ds.len(),
{
    if ds.len() == 0 {
        Seq::empty()
    } else {
        unresolved(ds.drop_last()) + if ds.last().discipline is Some && !ds.last().discipline_resolves {
            seq![NodeDiagnosticView::UnresolvedDiscipline { decl: ds.last().ast_id, name: ds.last().discipline.unwrap() }]
        } else {
            Seq::empty()
        }
    }
}

/// The syntax nodes of `ds`, in order.
pub open spec fn decl_ids(ds: Seq<NodeDecl>) -> Seq<u32> {
    ds.map_values(|d: NodeDecl| d.ast_id)
}

/// What the checks report for the net `node` with the declarations `ds`:
/// - without any declaration: that it is a port without direction and a net without
///   discipline, and nothing else;
/// - several direction declarations; or, without one, a first declaration that is not the
///   net's own declaration (a port of the module header) is a port without direction;
/// - every discipline name that does not resolve, then several discipline declarations; or
///   no discipline at all;
/// - several ground declarations.
pub open spec fn node_diagnostics(node: NodeInfo, ds: Seq<NodeDecl>) -> Seq<NodeDiagnosticView> {
    if ds.len() == 0 {
        seq![
            NodeDiagnosticView::PortWithoutDirection { decl: node.ast_id, name: node.name },
            NodeDiagnosticView::NodeWithoutDiscipline { decl: node.ast_id, name: node.name },
        ]
    } else {
        let ports = port_ids(ds);
        let discs = discipline_decls(ds);
        let gnds = gnd_ids(ds);
        let directions = if ports.len() > 1 {
            seq![NodeDiagnosticView::MultipleDirections { node: node.id, first: ports[0], subsequent: ports.drop_first() }]
        } else if ports.len() == 0 && ds[0].ast_id != node.ast_id {
            seq![NodeDiagnosticView::PortWithoutDirection { decl: node.ast_id, name: node.name }]
        } else {
            Seq::empty()
        };
        let disciplines = if discs.len() == 0 {
            seq![NodeDiagnosticView::NodeWithoutDiscipline { decl: node.ast_id, name: node.name }]
        } else if discs.len() > 1 {
            unresolved(discs) + seq![
                NodeDiagnosticView::MultipleDisciplines {
                    node: node.id,
                    first: discs[0].ast_id,
                    subsequent: decl_ids(discs.drop_first()),
                },
            ]
        } else {
            unresolved(discs)
        };
        let grounds = if gnds.len() > 1 {
            seq![NodeDiagnosticView::MultipleGnds { node: node.id, first: gnds[0], subsequent: gnds.drop_first() }]
        } else {
            Seq::empty()
        };
        directions + disciplines + grounds
    }
}

/// The elements of `v` after the first.
fn tail_of(v: &Vec<u32>) -> (r: Vec<u32>)
    requires
        v@.len() > 0,
    ensures
        r@ == v@.drop_first(),
{
    let mut r: Vec<u32> = Vec::new();
    let mut i: usize = 1;
    while i < v.len()
        invariant
            1 <= i <= v@.len(),
            r@ == v@.subrange(1, i as int),
        decreases v@.len() - i,
    {
        r.push(v[i]);
        i += 1;
        proof {
            assert(r@ =~= v@.subrange(1, i as int));
        }
    }
    proof {
        assert(v@.subrange(1, v@.len() as int) =~= v@.drop_first());
    }
    r
}

/// Check the declarations `decls` of the net `node`; see [`node_diagnostics`].
pub fn verify_node(node: &NodeInfo, decls: &Vec<NodeDecl>) -> (r: Vec<NodeDiagnostic>)
    ensures
        views(r@) == node_diagnostics(*node, decls@),
{
    let mut r: Vec<NodeDiagnostic> = Vec::new();
    if decls.len() == 0 {
        let ghost before_push = r@;
        r.push(NodeDiagnostic::PortWithoutDirection { decl: node.ast_id, name: node.name });
        proof {
            lemma_views_push(before_push, r@.last());
            assert(r@ == before_push.push(r@.last()));
        }
        let ghost before_push = r@;
        r.push(NodeDiagnostic::NodeWithoutDiscipline { decl: node.ast_id, name: node.name });
        proof {
            lemma_views_push(before_push, r@.last());
            assert(r@ == before_push.push(r@.last()));
        }
        proof {
            assert(views(r@) =~= node_diagnostics(*node, decls@));
        }
        return r;
    }
    let ghost ds = decls@;
    let mut ports: Vec<u32> = Vec::new();
    let mut gnds: Vec<u32> = Vec::new();
    let mut discs: Vec<NodeDecl> = Vec::new();
    let mut i: usize = 0;
    while i < decls.len()
        invariant
            ds == decls@,
            i <= ds.len(),
            ports@ == port_ids(ds.subrange(0, i as int)),
            gnds@ == gnd_ids(ds.subrange(0, i as int)),
            discs@ == discipline_decls(ds.subrange(0, i as int)),
        decreases ds.len() - i,
    {
        let d = decls[i];
        proof {
            assert(ds.subrange(0, i + 1).drop_last() =~= ds.subrange(0, i as int));
            assert(ds.subrange(0, i + 1).last() == d);
        }
        if d.is_port {
            ports.push(d.ast_id);
        }
        if d.is_gnd {
            gnds.push(d.ast_id);
        }
        if d.discipline.is_some() {
            discs.push(d);
        }
        i += 1;
        proof {
            assert(ports@ =~= port_ids(ds.subrange(0, i as int)));
            assert(gnds@ =~= gnd_ids(ds.subrange(0, i as int)));
            assert(discs@ =~= discipline_decls(ds.subrange(0, i as int)));
        }
    }
    proof {
        assert(ds.subrange(0, ds.len() as int) =~= ds);
    }
    let ghost spec_all = node_diagnostics(*node, ds);
    /* port direction */
    if ports.len() > 1 {
        let subsequent = tail_of(&ports);
        let ghost before_push = r@;
        r.push(NodeDiagnostic::MultipleDirections { node: node.id, first: ports[0], subsequent });
        proof {
            lemma_views_push(before_push, r@.last());
            assert(r@ == before_push.push(r@.last()));
        }
    } else if ports.len() == 0 && decls[0].ast_id != node.ast_id {
        let ghost before_push = r@;
        r.push(NodeDiagnostic::PortWithoutDirection { decl: node.ast_id, name: node.name });
        proof {
            lemma_views_push(before_push, r@.last());
            assert(r@ == before_push.push(r@.last()));
        }
    }
    let ghost after_dir = r@;
    let ghost ports_s = port_ids(ds);
    proof {
        assert(views(after_dir) =~= if ports_s.len() > 1 {
            seq![NodeDiagnosticView::MultipleDirections { node: node.id, first: ports_s[0], subsequent: ports_s.drop_first() }]
        } else if ports_s.len() == 0 && ds[0].ast_id != node.ast_id {
            seq![NodeDiagnosticView::PortWithoutDirection { decl: node.ast_id, name: node.name }]
        } else {
            Seq::<NodeDiagnosticView>::empty()
        });
    }
    /* node discipline */
    if discs.len() > 0 {
        let mut k: usize = 0;
        while k < discs.len()
            invariant
                k <= discs@.len(),
                views(r@) == views(after_dir)
                    + unresolved(discs@.subrange(0, k as int)),
            decreases discs@.len() - k,
        {
            let d = discs[k];
            proof {
                assert(discs@.subrange(0, k + 1).drop_last() =~= discs@.subrange(0, k as int));
                assert(discs@.subrange(0, k + 1).last() == d);
            }
            if d.discipline.is_some() && !d.discipline_resolves {
                let ghost before_push = r@;
                r.push(NodeDiagnostic::UnresolvedDiscipline { decl: d.ast_id, name: d.discipline.unwrap() });
                proof {
                    lemma_views_push(before_push, r@.last());
                    assert(r@ == before_push.push(r@.last()));
                }
            }
            k += 1;
            proof {
                assert(views(r@) =~= views(after_dir)
                    + unresolved(discs@.subrange(0, k as int)));
            }
        }
        proof {
            assert(discs@.subrange(0, discs@.len() as int) =~= discs@);
        }
        if discs.len() > 1 {
            let mut subsequent: Vec<u32> = Vec::new();
            let mut k: usize = 1;
            while k < discs.len()
                invariant
                    1 <= k <= discs@.len(),
                    subsequent@ == decl_ids(discs@.subrange(1, k as int)),
                decreases discs@.len() - k,
            {
                subsequent.push(discs[k].ast_id);
                k += 1;
                proof {
                    assert(subsequent@ =~= decl_ids(discs@.subrange(1, k as int)));
                }
            }
            proof {
                assert(discs@.subrange(1, discs@.len() as int) =~= discs@.drop_first());
            }
            let ghost before_push = r@;
            r.push(NodeDiagnostic::MultipleDisciplines { node: node.id, first: discs[0].ast_id, subsequent });
            proof {
                lemma_views_push(before_push, r@.last());
                assert(r@ == before_push.push(r@.last()));
            }
        }
    } else {
        let ghost before_push = r@;
        r.push(NodeDiagnostic::NodeWithoutDiscipline { decl: node.ast_id, name: node.name });
        proof {
            lemma_views_push(before_push, r@.last());
            assert(r@ == before_push.push(r@.last()));
        }
    }
    let ghost after_disc = r@;
    /* ground net type */
    if gnds.len() > 1 {
        let subsequent = tail_of(&gnds);
        let ghost before_push = r@;
        r.push(NodeDiagnostic::MultipleGnds { node: node.id, first: gnds[0], subsequent });
        proof {
            lemma_views_push(before_push, r@.last());
            assert(r@ == before_push.push(r@.last()));
        }
    }
    proof {
        assert(views(r@) =~= spec_all);
    }
    r
}

} // verus!
