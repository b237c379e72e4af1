use eir_core::cfg::{EdgeN, FunctionCfg, LabelN};
use eir_core::ssa_variable::SSAVariable;

#[test]
fn new_graph_has_one_empty_entry_block() {
    let cfg = FunctionCfg::new();
    assert_eq!(cfg.entry(), LabelN(0));
    assert_eq!(cfg.labels_iter(), vec![LabelN(0)]);
    let blocks = cfg.blocks_iter();
    assert_eq!(blocks.len(), 1);
    assert_eq!(blocks[0].label, Some(LabelN(0)));
    assert!(blocks[0].ops.is_empty());
    assert!(blocks[0].phi_nodes.is_empty());
    assert!(cfg.jumps_iter(LabelN(0)).is_empty());
    assert!(cfg.branch_slots(LabelN(0)).is_empty());
}

#[test]
fn edges_lead_to_their_targets_in_order() {
    let mut cfg = FunctionCfg::new();
    let a = cfg.add_block().unwrap();
    let b = cfg.add_block().unwrap();
    assert_eq!((a, b), (LabelN(1), LabelN(2)));
    let e0 = cfg.add_edge(cfg.entry(), b, vec![SSAVariable(1)]).unwrap();
    let e1 = cfg.add_edge(cfg.entry(), a, vec![]).unwrap();
    let e2 = cfg.add_edge(a, b, vec![]).unwrap();
    let e3 = cfg.add_edge(b, b, vec![]).unwrap();
    assert_eq!((e0, e1, e2, e3), (EdgeN(0), EdgeN(1), EdgeN(2), EdgeN(3)));
    assert_eq!(cfg.jumps_iter(LabelN(0)), vec![e0, e1]);
    assert_eq!(cfg.branch_slots(LabelN(0)), vec![b, a]);
    assert_eq!(cfg.branch_slots(a), vec![b]);
    assert_eq!(cfg.branch_slots(b), vec![b]);
    assert_eq!(cfg.edge_target(e1), a);
    assert_eq!(cfg.edge_target(e3), b);
    assert_eq!(cfg.block(a).label, Some(a));
    assert_eq!(cfg.block(b).outgoing_edges, vec![e3]);
    assert_eq!(cfg.labels_iter(), vec![LabelN(0), LabelN(1), LabelN(2)]);
    let labels: Vec<Option<LabelN>> = cfg.blocks_iter().iter().map(|b| b.label).collect();
    assert_eq!(labels, vec![Some(LabelN(0)), Some(LabelN(1)), Some(LabelN(2))]);
}

#[test]
fn blocks_can_be_changed_in_place() {
    let mut cfg = FunctionCfg::new();
    let a = cfg.add_block().unwrap();
    let mut seen = 0;
    for block in cfg.blocks_iter_mut() {
        if block.label == Some(a) {
            block.phi_nodes.push(eir_core::cfg::Phi { entries: vec![], ssa: SSAVariable(3) });
        }
        seen += 1;
    }
    assert_eq!(seen, 2);
    assert_eq!(cfg.block(a).phi_nodes.len(), 1);
    assert_eq!(cfg.block(a).phi_nodes[0].ssa, SSAVariable(3));
    assert_eq!(cfg.block(LabelN(0)).phi_nodes.len(), 0);
}

#[test]
fn labels_print_as_l_and_the_index() {
    assert_eq!(LabelN(0).to_text(), "L0");
    assert_eq!(LabelN(7).to_text(), "L7");
    assert_eq!(LabelN(12).to_text(), "L12");
    assert_eq!(LabelN(1090).to_text(), "L1090");
    assert_eq!(LabelN(usize::MAX).to_text(), format!("L{}", usize::MAX));
}
