use cpp_codegen::ir::BasicBlockData;
use cpp_codegen::ir::Instruction;
use cpp_codegen::ir::IrFunction;
use cpp_codegen::ir::Node;
use cpp_codegen::ir::PhiIncoming;
use cpp_codegen::ir::SwitchCase;
use cpp_codegen::phi::PhiCollector;
use cpp_codegen::CodegenError;

fn node(inst: Instruction) -> Node {
    Node { inst, ty: 0 }
}

fn phi(incomings: Vec<(usize, usize)>) -> Node {
    node(Instruction::Phi {
        incomings: incomings
            .into_iter()
            .map(|(block, value)| PhiIncoming { block, value })
            .collect(),
    })
}

fn block(phis: Vec<usize>, insts: Vec<usize>) -> BasicBlockData {
    BasicBlockData { phis, insts }
}

/// A function with phis nested in every supported construct.
fn all_constructs() -> IrFunction {
    IrFunction {
        nodes: vec![
            phi(vec![(1, 0), (2, 0)]),  // 0: p0, declared in block 0
            phi(vec![(0, 0)]),          // 1: p1, in the true branch
            phi(vec![(0, 0)]),          // 2: p3, in the switch default
            phi(vec![(4, 0), (0, 0)]),  // 3: p5, in the second case
            phi(vec![(6, 0), (8, 0)]),  // 4: p7, in the loop body
            phi(vec![(0, 0)]),          // 5: p9, in the triangle-hit callback
            phi(vec![(0, 0)]),          // 6: p11, in the forward-diff body
            phi(vec![(0, 0)]),          // 7: p12, in the reverse-diff body
            node(Instruction::If { true_branch: 1, false_branch: 2 }),  // 8
            node(Instruction::Switch {
                default: 3,
                cases: vec![
                    SwitchCase { value: 1, block: 4 },
                    SwitchCase { value: 2, block: 5 },
                ],
            }),  // 9
            node(Instruction::GenericLoop { prepare: 6, body: 7, update: 8 }),  // 10
            node(Instruction::RayQuery { on_triangle_hit: 9, on_procedural_hit: 10 }),  // 11
            node(Instruction::FwdAutodiff { body: 11 }),  // 12
            node(Instruction::RevAutodiff { body: 12 }),  // 13
        ],
        blocks: vec![
            block(vec![0], vec![8, 9, 10, 11, 12, 13]),  // 0
            block(vec![1], vec![]),                      // 1: if true
            block(vec![], vec![]),                       // 2: if false
            block(vec![2], vec![]),                      // 3: switch default
            block(vec![], vec![]),                       // 4: case 1
            block(vec![3], vec![]),                      // 5: case 2
            block(vec![], vec![]),                       // 6: loop prepare
            block(vec![4], vec![]),                      // 7: loop body
            block(vec![], vec![]),                       // 8: loop update
            block(vec![5], vec![]),                      // 9: rq triangle hit
            block(vec![], vec![]),                       // 10: rq procedural hit
            block(vec![6], vec![]),                      // 11: fwd body
            block(vec![7], vec![]),                      // 12: rev body
        ],
    }
}

#[test]
fn phi_completeness_across_all_constructs() {
    let f = all_constructs();
    let mut col = PhiCollector::new();
    assert_eq!(col.visit_block(&f, 0), Ok(()));
    // Each phi exactly once, in visit order.
    assert_eq!(col.phi_list(), vec![0, 1, 2, 3, 4, 5, 6, 7]);
    // The predecessor map lists exactly the phis incoming from each block,
    // in incoming-edge order; keys in first-registration order.
    assert_eq!(col.pred_blocks(), vec![1, 2, 0, 4, 6, 8]);
    assert_eq!(col.phis_of_block(1), Some(vec![0]));
    assert_eq!(col.phis_of_block(2), Some(vec![0]));
    assert_eq!(col.phis_of_block(0), Some(vec![1, 2, 3, 5, 6, 7]));
    assert_eq!(col.phis_of_block(4), Some(vec![3]));
    assert_eq!(col.phis_of_block(6), Some(vec![4]));
    assert_eq!(col.phis_of_block(8), Some(vec![4]));
    assert_eq!(col.phis_of_block(3), None);
    assert_eq!(col.phis_of_block(99), None);
}

#[test]
fn phi_set_registers_each_phi_once() {
    // The same phi visited again through a repeated visit of the entry
    // keeps set semantics: no duplicate entries.
    let f = all_constructs();
    let mut col = PhiCollector::new();
    assert_eq!(col.visit_block(&f, 0), Ok(()));
    assert_eq!(col.visit_block(&f, 0), Ok(()));
    assert_eq!(col.phi_list(), vec![0, 1, 2, 3, 4, 5, 6, 7]);
}

#[test]
fn empty_function_collects_nothing() {
    let f = IrFunction { nodes: vec![], blocks: vec![block(vec![], vec![])] };
    let mut col = PhiCollector::new();
    assert_eq!(col.visit_block(&f, 0), Ok(()));
    assert_eq!(col.phi_list(), Vec::<usize>::new());
    assert_eq!(col.pred_blocks(), Vec::<usize>::new());
}

#[test]
fn out_of_range_block_is_inconsistent() {
    let f = IrFunction { nodes: vec![], blocks: vec![block(vec![], vec![])] };
    let mut col = PhiCollector::new();
    assert_eq!(col.visit_block(&f, 3), Err(CodegenError::InconsistentControlFlow));
}

#[test]
fn phi_list_entry_that_is_no_phi_is_inconsistent() {
    let f = IrFunction {
        nodes: vec![node(Instruction::Local)],
        blocks: vec![block(vec![0], vec![])],
    };
    let mut col = PhiCollector::new();
    assert_eq!(col.visit_block(&f, 0), Err(CodegenError::InconsistentControlFlow));
}

#[test]
fn nested_block_not_after_container_is_inconsistent() {
    // The true branch refers back to the containing block.
    let f = IrFunction {
        nodes: vec![node(Instruction::If { true_branch: 0, false_branch: 1 })],
        blocks: vec![block(vec![], vec![0]), block(vec![], vec![])],
    };
    let mut col = PhiCollector::new();
    assert_eq!(col.visit_block(&f, 0), Err(CodegenError::InconsistentControlFlow));
}

#[test]
fn missing_nested_block_is_inconsistent() {
    let f = IrFunction {
        nodes: vec![node(Instruction::FwdAutodiff { body: 7 })],
        blocks: vec![block(vec![], vec![0])],
    };
    let mut col = PhiCollector::new();
    assert_eq!(col.visit_block(&f, 0), Err(CodegenError::InconsistentControlFlow));
}
