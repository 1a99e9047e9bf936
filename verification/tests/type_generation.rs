use cpp_codegen::ir::ScalarKind;
use cpp_codegen::ir::TypeArena;
use cpp_codegen::ir::TypeDesc;
use cpp_codegen::types::TypeRegistry;
use cpp_codegen::CodegenError;

fn scalar(k: ScalarKind) -> TypeDesc {
    TypeDesc::Scalar { kind: k }
}

#[test]
fn scalar_names() {
    let arena = TypeArena {
        types: vec![
            TypeDesc::Void,
            scalar(ScalarKind::Bool),
            scalar(ScalarKind::Int16),
            scalar(ScalarKind::Int32),
            scalar(ScalarKind::Int64),
            scalar(ScalarKind::Uint16),
            scalar(ScalarKind::Uint32),
            scalar(ScalarKind::Uint64),
            scalar(ScalarKind::Float16),
            scalar(ScalarKind::Float32),
        ],
    };
    assert!(arena.check_wf());
    let mut reg = TypeRegistry::new();
    let expected = [
        "void", "bool", "int16_t", "int32_t", "int64_t", "uint16_t", "uint32_t", "uint64_t",
        "half", "float",
    ];
    for (i, e) in expected.iter().enumerate() {
        assert_eq!(reg.gen_type(&arena, i).unwrap(), *e);
    }
    assert_eq!(reg.generated(), "");
}

#[test]
fn vector_matrix_array_names() {
    let arena = TypeArena {
        types: vec![
            TypeDesc::Vector { kind: ScalarKind::Float32, dim: 3 },
            TypeDesc::Vector { kind: ScalarKind::Bool, dim: 2 },
            TypeDesc::Vector { kind: ScalarKind::Uint64, dim: 4 },
            TypeDesc::Matrix { kind: ScalarKind::Float32, dim: 4 },
            TypeDesc::Array { elem: 0, len: 8 },
        ],
    };
    assert!(arena.check_wf());
    let mut reg = TypeRegistry::new();
    assert_eq!(reg.gen_type(&arena, 0).unwrap(), "lc_float3");
    assert_eq!(reg.gen_type(&arena, 1).unwrap(), "lc_bool2");
    assert_eq!(reg.gen_type(&arena, 2).unwrap(), "lc_ulong4");
    assert_eq!(reg.gen_type(&arena, 3).unwrap(), "lc_float4x4");
    assert_eq!(reg.gen_type(&arena, 4).unwrap(), "lc_array<lc_float3, 8>");
    assert_eq!(reg.generated(), "");
}

#[test]
fn unsupported_and_unrecognized() {
    let arena = TypeArena {
        types: vec![
            TypeDesc::Matrix { kind: ScalarKind::Int32, dim: 3 },
            TypeDesc::Opaque,
        ],
    };
    let mut reg = TypeRegistry::new();
    assert_eq!(reg.gen_type(&arena, 0), Err(CodegenError::UnsupportedKind));
    assert_eq!(reg.gen_type(&arena, 1), Err(CodegenError::UnrecognizedType));
}

#[test]
fn struct_gen_is_idempotent() {
    // Repeated gen_type on one descriptor returns the same name and emits
    // its declaration at most once.
    let arena = TypeArena {
        types: vec![
            scalar(ScalarKind::Int32),
            scalar(ScalarKind::Float32),
            TypeDesc::Struct { fields: vec![0, 1], alignment: 8 },
        ],
    };
    assert!(arena.check_wf());
    let mut reg = TypeRegistry::new();
    let n1 = reg.gen_type(&arena, 2).unwrap();
    let text1 = reg.generated();
    let n2 = reg.gen_type(&arena, 2).unwrap();
    let text2 = reg.generated();
    assert_eq!(n1, n2);
    assert_eq!(text1, text2);
    assert_eq!(text1.matches("struct alignas(").count(), 1);
}

#[test]
fn structurally_equal_structs_share_one_declaration() {
    // Two distinct descriptor handles with identical structure resolve to
    // the same name, and the declaration text is emitted once.
    let arena = TypeArena {
        types: vec![
            scalar(ScalarKind::Int32),
            scalar(ScalarKind::Float32),
            TypeDesc::Struct { fields: vec![0, 1], alignment: 8 },
            TypeDesc::Struct { fields: vec![0, 1], alignment: 8 },
        ],
    };
    assert!(arena.check_wf());
    let mut reg = TypeRegistry::new();
    let n1 = reg.gen_type(&arena, 2).unwrap();
    let n2 = reg.gen_type(&arena, 3).unwrap();
    assert_eq!(n1, n2);
    assert_eq!(reg.generated().matches("struct alignas(").count(), 1);
}

#[test]
fn distinct_structs_never_collide() {
    // Differing field order, differing types, differing alignment: each
    // gets a distinct content-addressed name.
    let arena = TypeArena {
        types: vec![
            scalar(ScalarKind::Int32),
            scalar(ScalarKind::Float32),
            TypeDesc::Struct { fields: vec![0, 1], alignment: 8 },
            TypeDesc::Struct { fields: vec![1, 0], alignment: 8 },
            TypeDesc::Struct { fields: vec![0, 0], alignment: 8 },
            TypeDesc::Struct { fields: vec![0, 1], alignment: 16 },
            TypeDesc::Struct { fields: vec![0], alignment: 8 },
        ],
    };
    assert!(arena.check_wf());
    let mut reg = TypeRegistry::new();
    let names: Vec<String> = (2..7).map(|i| reg.gen_type(&arena, i).unwrap()).collect();
    for i in 0..names.len() {
        for j in (i + 1)..names.len() {
            assert_ne!(names[i], names[j], "collision between {i} and {j}");
        }
    }
    assert_eq!(reg.generated().matches("struct alignas(").count(), 5);
}

#[test]
fn struct_declaration_text() {
    let arena = TypeArena {
        types: vec![
            scalar(ScalarKind::Int32),
            scalar(ScalarKind::Float32),
            TypeDesc::Struct { fields: vec![0, 1], alignment: 8 },
        ],
    };
    let mut reg = TypeRegistry::new();
    let name = reg.gen_type(&arena, 2).unwrap();
    assert!(name.starts_with("s_"));
    assert!(name.chars().all(|c| c.is_ascii_alphanumeric() || c == '_'));
    let text = reg.generated();
    assert!(text.starts_with(&format!("struct alignas(8) {} {{\n", name)));
    assert!(text.contains("    int32_t f0;\n"));
    assert!(text.contains("    float f1;\n"));
    assert!(text.contains("    __device__ constexpr static auto one() {\n"));
    assert!(text.contains("        lc_one<int32_t>(),\n"));
    assert!(text.contains("        lc_zero<float>(),\n"));
    assert!(text.contains(&format!(
        "__device__ inline void lc_accumulate_grad({} *dst, {} grad) noexcept {{\n",
        name, name
    )));
    assert!(text.contains("        lc_accumulate_grad(&dst->f0, grad.f0);\n"));
    assert!(text.contains("        lc_accumulate_grad(&dst->f1, grad.f1);\n"));
}

#[test]
fn nested_struct_declared_before_container() {
    let arena = TypeArena {
        types: vec![
            scalar(ScalarKind::Int32),
            TypeDesc::Struct { fields: vec![0], alignment: 4 },
            TypeDesc::Struct { fields: vec![1, 1], alignment: 16 },
        ],
    };
    let mut reg = TypeRegistry::new();
    let outer = reg.gen_type(&arena, 2).unwrap();
    let inner = reg.gen_type(&arena, 1).unwrap();
    let text = reg.generated();
    let inner_pos = text.find(&format!("struct alignas(4) {}", inner)).unwrap();
    let outer_pos = text.find(&format!("struct alignas(16) {}", outer)).unwrap();
    assert!(inner_pos < outer_pos);
    assert_eq!(text.matches("struct alignas(").count(), 2);
}

#[test]
fn struct_name_is_deterministic() {
    // Same structure, fresh registry and arena: the same name. The exact
    // content-hash rendering is an implementation detail; only determinism
    // and collision freedom are promised.
    let build = || TypeArena {
        types: vec![
            scalar(ScalarKind::Int32),
            scalar(ScalarKind::Float32),
            TypeDesc::Struct { fields: vec![0, 1], alignment: 8 },
        ],
    };
    let a1 = build();
    let a2 = build();
    let mut r1 = TypeRegistry::new();
    let mut r2 = TypeRegistry::new();
    assert_eq!(r1.gen_type(&a1, 2).unwrap(), r2.gen_type(&a2, 2).unwrap());
}

#[test]
fn error_inside_struct_field_propagates() {
    let arena = TypeArena {
        types: vec![
            TypeDesc::Matrix { kind: ScalarKind::Bool, dim: 2 },
            TypeDesc::Struct { fields: vec![0], alignment: 4 },
        ],
    };
    let mut reg = TypeRegistry::new();
    assert_eq!(reg.gen_type(&arena, 1), Err(CodegenError::UnsupportedKind));
    assert_eq!(reg.generated(), "");
}
