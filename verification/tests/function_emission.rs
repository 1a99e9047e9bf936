use cpp_codegen::emit::gep_field_name;
use cpp_codegen::emit::FunctionEmitter;
use cpp_codegen::emit::GlobalEmissionState;
use cpp_codegen::ir::Instruction;
use cpp_codegen::ir::IrFunction;
use cpp_codegen::ir::Node;
use cpp_codegen::ir::ScalarKind;
use cpp_codegen::ir::TypeArena;
use cpp_codegen::ir::TypeDesc;
use cpp_codegen::phi::PhiCollector;
use cpp_codegen::types::TypeRegistry;
use cpp_codegen::CodegenError;

fn node(inst: Instruction, ty: usize) -> Node {
    Node { inst, ty }
}

fn fresh_emitter() -> FunctionEmitter {
    let col = PhiCollector::new();
    FunctionEmitter::new(col.phis, col.phis_per_block)
}

#[test]
fn gen_node_is_stable_and_globally_indexed() {
    let f = IrFunction {
        nodes: vec![
            node(Instruction::Buffer, 0),
            node(Instruction::Local, 0),
            node(Instruction::Constant { value: 7 }, 0),
            node(Instruction::Argument, 0),
            node(Instruction::Phi { incomings: vec![] }, 0),
        ],
        blocks: vec![],
    };
    let mut em = fresh_emitter();
    // One monotonically increasing index shared across all kinds.
    assert_eq!(em.gen_node(&f, 0), "b0");
    assert_eq!(em.gen_node(&f, 1), "v1");
    assert_eq!(em.gen_node(&f, 2), "c2");
    // Stable per node across repeated calls.
    assert_eq!(em.gen_node(&f, 0), "b0");
    assert_eq!(em.gen_node(&f, 1), "v1");
    // Later fresh nodes keep counting globally.
    assert_eq!(em.gen_node(&f, 3), "arg3");
    assert_eq!(em.gen_node(&f, 4), "phi4");
}

#[test]
fn write_ident_appends_four_spaces_per_level() {
    let mut em = fresh_emitter();
    em.write_ident();
    assert_eq!(em.body, "    ");
    em.indent = 3;
    em.write_ident();
    assert_eq!(em.body, "                ");
}

#[test]
fn access_chain_struct_array_vector() {
    // A struct holding an array of a vector, indexed with
    // [fieldOrdinal, arrayIndexExpr, componentIndexExpr].
    let arena = TypeArena {
        types: vec![
            TypeDesc::Vector { kind: ScalarKind::Float32, dim: 4 },  // 0
            TypeDesc::Array { elem: 0, len: 8 },                     // 1
            TypeDesc::Struct { fields: vec![1], alignment: 16 },     // 2
        ],
    };
    assert!(arena.check_wf());
    let f = IrFunction {
        nodes: vec![
            node(Instruction::Buffer, 2),               // 0: the base value
            node(Instruction::Constant { value: 0 }, 0),  // 1: field ordinal
            node(Instruction::Local, 0),                // 2: array index
            node(Instruction::Local, 0),                // 3: component index
        ],
        blocks: vec![],
    };
    let mut em = fresh_emitter();
    let r = em.access_chain(&arena, &f, "base".to_string(), 0, &[1, 2, 3]);
    assert_eq!(r, Ok("base.f0[v0][v1]".to_string()));
    // A fourth index raises MalformedAccessChain.
    let mut em2 = fresh_emitter();
    let r2 = em2.access_chain(&arena, &f, "base".to_string(), 0, &[1, 2, 3, 2]);
    assert_eq!(r2, Err(CodegenError::MalformedAccessChain));
}

#[test]
fn access_chain_rejects_runtime_struct_ordinal() {
    let arena = TypeArena {
        types: vec![
            TypeDesc::Scalar { kind: ScalarKind::Int32 },
            TypeDesc::Struct { fields: vec![0], alignment: 4 },
        ],
    };
    let f = IrFunction {
        nodes: vec![
            node(Instruction::Buffer, 1),
            node(Instruction::Local, 0),  // a runtime value, not a constant
        ],
        blocks: vec![],
    };
    let mut em = fresh_emitter();
    let r = em.access_chain(&arena, &f, "base".to_string(), 0, &[1]);
    assert_eq!(r, Err(CodegenError::MalformedAccessChain));
}

#[test]
fn access_chain_rejects_indexing_a_scalar() {
    let arena = TypeArena {
        types: vec![TypeDesc::Scalar { kind: ScalarKind::Float32 }],
    };
    let f = IrFunction {
        nodes: vec![node(Instruction::Buffer, 0), node(Instruction::Local, 0)],
        blocks: vec![],
    };
    let mut em = fresh_emitter();
    let r = em.access_chain(&arena, &f, "x".to_string(), 0, &[1]);
    assert_eq!(r, Err(CodegenError::MalformedAccessChain));
}

#[test]
fn atomic_add_on_float_buffer() {
    // An atomic add on a float buffer: a typed buffer reference, the
    // element located by the chain, and the add primitive applied to its
    // address with the operand, bound to a fresh result variable.
    let arena = TypeArena {
        types: vec![TypeDesc::Scalar { kind: ScalarKind::Float32 }],
    };
    let f = IrFunction {
        nodes: vec![
            node(Instruction::Buffer, 0),  // the resource
            node(Instruction::Local, 0),   // the element index expression
            node(Instruction::Local, 0),   // the operand
        ],
        blocks: vec![],
    };
    let mut em = fresh_emitter();
    let mut reg = TypeRegistry::new();
    let args = [0usize, 1, 2];
    let args_v = ["b0".to_string(), "v1".to_string(), "v2".to_string()];
    let r = em.atomic_chain_op(
        &mut reg,
        &arena,
        &f,
        "f3",
        "float",
        &args,
        &args_v,
        "lc_atomic_fetch_add",
        1,
    );
    assert_eq!(r, Ok(()));
    assert_eq!(
        em.body,
        "const float f3 = lc_atomic_fetch_add(&(*lc_buffer_ref<float>(k_args, b0, v1)), v2);\n"
    );
}

#[test]
fn atomic_compare_exchange_joins_two_operands() {
    let arena = TypeArena {
        types: vec![TypeDesc::Scalar { kind: ScalarKind::Uint32 }],
    };
    let f = IrFunction {
        nodes: vec![
            node(Instruction::Buffer, 0),
            node(Instruction::Local, 0),
            node(Instruction::Local, 0),
            node(Instruction::Local, 0),
        ],
        blocks: vec![],
    };
    let mut em = fresh_emitter();
    let mut reg = TypeRegistry::new();
    let args = [0usize, 1, 2, 3];
    let args_v = [
        "b0".to_string(),
        "v1".to_string(),
        "v2".to_string(),
        "v3".to_string(),
    ];
    let r = em.atomic_chain_op(
        &mut reg,
        &arena,
        &f,
        "f4",
        "uint32_t",
        &args,
        &args_v,
        "lc_atomic_compare_exchange",
        2,
    );
    assert_eq!(r, Ok(()));
    assert_eq!(
        em.body,
        "const uint32_t f4 = lc_atomic_compare_exchange(&(*lc_buffer_ref<uint32_t>(k_args, b0, v1)), v2, v3);\n"
    );
}

#[test]
fn atomic_on_struct_buffer_locates_member() {
    let arena = TypeArena {
        types: vec![
            TypeDesc::Scalar { kind: ScalarKind::Int32 },
            TypeDesc::Scalar { kind: ScalarKind::Float32 },
            TypeDesc::Struct { fields: vec![0, 1], alignment: 8 },
        ],
    };
    let f = IrFunction {
        nodes: vec![
            node(Instruction::Buffer, 2),
            node(Instruction::Local, 0),
            node(Instruction::Constant { value: 1 }, 0),  // the member ordinal
            node(Instruction::Local, 1),
        ],
        blocks: vec![],
    };
    let mut em = fresh_emitter();
    let mut reg = TypeRegistry::new();
    let struct_name = {
        let mut probe = TypeRegistry::new();
        probe.gen_type(&arena, 2).unwrap()
    };
    let args = [0usize, 1, 2, 3];
    let args_v = [
        "b0".to_string(),
        "v1".to_string(),
        "c2".to_string(),
        "v3".to_string(),
    ];
    let r = em.atomic_chain_op(
        &mut reg,
        &arena,
        &f,
        "f4",
        "float",
        &args,
        &args_v,
        "lc_atomic_fetch_add",
        1,
    );
    assert_eq!(r, Ok(()));
    assert_eq!(
        em.body,
        format!(
            "const float f4 = lc_atomic_fetch_add(&(*lc_buffer_ref<{}>(k_args, b0, v1)).f1, v3);\n",
            struct_name
        )
    );
    // The resource's struct declaration was emitted while generating the
    // typed reference.
    assert_eq!(reg.generated().matches("struct alignas(").count(), 1);
}

#[test]
fn gep_field_names() {
    let arena = TypeArena {
        types: vec![
            TypeDesc::Scalar { kind: ScalarKind::Float32 },
            TypeDesc::Struct { fields: vec![0], alignment: 4 },
            TypeDesc::Vector { kind: ScalarKind::Float32, dim: 4 },
            TypeDesc::Matrix { kind: ScalarKind::Float32, dim: 3 },
        ],
    };
    let f = IrFunction {
        nodes: vec![
            node(Instruction::Local, 1),
            node(Instruction::Local, 2),
            node(Instruction::Local, 3),
        ],
        blocks: vec![],
    };
    assert_eq!(gep_field_name(&arena, &f, 0, 2), "f2");
    assert_eq!(gep_field_name(&arena, &f, 1, 0), "x");
    assert_eq!(gep_field_name(&arena, &f, 1, 1), "y");
    assert_eq!(gep_field_name(&arena, &f, 1, 2), "z");
    assert_eq!(gep_field_name(&arena, &f, 1, 3), "w");
    assert_eq!(gep_field_name(&arena, &f, 2, 1), "cols[1]");
}

#[test]
fn global_state_index_tables() {
    let mut g = GlobalEmissionState::new();
    assert_eq!(g.register_argument(42), 0);
    assert_eq!(g.register_argument(17), 1);
    assert_eq!(g.register_argument(42), 0);
    assert_eq!(g.register_capture(42), 0);
    assert_eq!(g.register_capture(5), 1);
    assert_eq!(g.register_custom_op(1000), 0);
    assert_eq!(g.register_custom_op(1001), 1);
    assert_eq!(g.register_custom_op(1000), 0);
}

#[test]
fn end_to_end_buffer_argument_scenario() {
    // A function with one buffer argument of a two-field struct type:
    // exactly one struct declaration, deterministically named, and body
    // text referencing that name and the bound argument variable at the
    // shared global index zero.
    let arena = TypeArena {
        types: vec![
            TypeDesc::Scalar { kind: ScalarKind::Int32 },
            TypeDesc::Scalar { kind: ScalarKind::Float32 },
            TypeDesc::Struct { fields: vec![0, 1], alignment: 8 },
        ],
    };
    assert!(arena.check_wf());
    let f = IrFunction {
        nodes: vec![
            node(Instruction::Buffer, 2),               // the buffer argument
            node(Instruction::Argument, 0),             // the element index argument
            node(Instruction::Constant { value: 1 }, 0),  // a field ordinal
        ],
        blocks: vec![block_empty()],
    };
    let mut reg = TypeRegistry::new();
    let mut em = fresh_emitter();
    let name = reg.gen_type(&arena, 2).unwrap();
    let bvar = em.gen_node(&f, 0);
    let avar = em.gen_node(&f, 1);
    assert_eq!(bvar, "b0");
    assert_eq!(avar, "arg1");
    em.write_ident();
    let elem = format!("(*lc_buffer_ref<{}>(k_args, {}, {}))", name, bvar, avar);
    let loaded = em.access_chain(&arena, &f, elem, 0, &[2]).unwrap();
    em.body.push_str(&format!("const float v = {};\n", loaded));
    let unit = format!("{}{}", reg.generated(), em.body);
    assert_eq!(unit.matches("struct alignas(").count(), 1);
    assert!(unit.contains(&format!("struct alignas(8) {} {{", name)));
    assert!(unit.contains(&format!(
        "    const float v = (*lc_buffer_ref<{}>(k_args, b0, arg1)).f1;\n",
        name
    )));
}

fn block_empty() -> cpp_codegen::ir::BasicBlockData {
    cpp_codegen::ir::BasicBlockData { phis: vec![], insts: vec![] }
}
