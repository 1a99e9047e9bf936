//! Structural type canonicalization and text generation with
//! content-addressed deduplication. `gen_type` memoizes one target name per
//! descriptor handle; struct declarations are emitted at most once per
//! distinct content key, and `generated` returns them in first-emission
//! order.

use vstd::prelude::*;

verus! {

use vstd::string::StringExecFns;
use vstd::pervasive::VecAdditionalExecFns;
use crate::CodegenError;
use crate::ir::ScalarKind;
use crate::ir::TypeDesc;
use crate::ir::TypeArena;
use crate::text::dec_digits;
use crate::text::dec_u64;
use crate::text::hex_chars;
use crate::text::push_hex_chars;
use crate::text::join_parts;
use crate::text::pre_join;
use crate::text::lemma_join_push;
use crate::text::lemma_dec_digits_nonempty;
use crate::text::lemma_dec_digits_sep_free;
use crate::text::lemma_dec_digits_injective;
use crate::text::lemma_hex_chars_sep_free;
use crate::text::lemma_hex_chars_injective;
use crate::text::lemma_join_parts_injective;
use crate::text::lemma_append_split;

// ---------------------------------------------------------------------------
// Target type names
// ---------------------------------------------------------------------------

pub open spec fn scalar_name(k: ScalarKind) -> Seq<char> {
    match k {
        ScalarKind::Bool => "bool"@,
        ScalarKind::Int16 => "int16_t"@,
        ScalarKind::Int32 => "int32_t"@,
        ScalarKind::Int64 => "int64_t"@,
        ScalarKind::Uint16 => "uint16_t"@,
        ScalarKind::Uint32 => "uint32_t"@,
        ScalarKind::Uint64 => "uint64_t"@,
        ScalarKind::Float16 => "half"@,
        ScalarKind::Float32 => "float"@,
    }
}

pub open spec fn vector_prefix(k: ScalarKind) -> Seq<char> {
    match k {
        ScalarKind::Bool => "lc_bool"@,
        ScalarKind::Int16 => "lc_short"@,
        ScalarKind::Int32 => "lc_int"@,
        ScalarKind::Int64 => "lc_long"@,
        ScalarKind::Uint16 => "lc_ushort"@,
        ScalarKind::Uint32 => "lc_uint"@,
        ScalarKind::Uint64 => "lc_ulong"@,
        ScalarKind::Float16 => "lc_half"@,
        ScalarKind::Float32 => "lc_float"@,
    }
}

pub open spec fn vector_name(k: ScalarKind, dim: u32) -> Seq<char> {
    vector_prefix(k) + dec_digits(dim as nat)
}

pub open spec fn matrix_name(dim: u32) -> Seq<char> {
    "lc_float"@ + dec_digits(dim as nat) + "x"@ + dec_digits(dim as nat)
}

pub open spec fn array_name(elem: Seq<char>, len: u64) -> Seq<char> {
    "lc_array<"@ + elem + ", "@ + dec_digits(len as nat) + ">"@
}

/// The views of a list of built strings.
pub open spec fn views(ns: Seq<String>) -> Seq<Seq<char>> {
    ns.map_values(|s: String| s@)
}

/// The hexadecimal encodings of a list of field type names.
pub open spec fn hex_parts(ns: Seq<Seq<char>>) -> Seq<Seq<char>> {
    ns.map_values(|n: Seq<char>| hex_chars(n))
}

/// The content-addressed struct name: a fixed prefix, then the content key
/// (the field-type-name sequence plus the alignment) rendered
/// identifier-safe by the injective hexadecimal encoding and join.
pub open spec fn struct_name(field_names: Seq<Seq<char>>, alignment: u64) -> Seq<char> {
    "s_"@ + join_parts(hex_parts(field_names).push(dec_digits(alignment as nat)))
}

/// The generated name of descriptor `t`, or the error generation aborts
/// with. Mirrors the classification rules: null, scalar and vector tables,
/// float-only matrices, arrays, and content-addressed structs.
pub open spec fn name_of(types: Seq<TypeDesc>, t: int) -> Result<Seq<char>, CodegenError>
    decreases t, 1int, 0int,
{
    if !(0 <= t < types.len()) {
        Err(CodegenError::UnrecognizedType)
    } else {
        match types[t] {
            TypeDesc::Void => Ok("void"@),
            TypeDesc::Scalar { kind } => Ok(scalar_name(kind)),
            TypeDesc::Vector { kind, dim } => Ok(vector_name(kind, dim)),
            TypeDesc::Matrix { kind, dim } => if kind == ScalarKind::Float32 {
                Ok(matrix_name(dim))
            } else {
                Err(CodegenError::UnsupportedKind)
            },
            TypeDesc::Array { elem, len } => if 0 <= elem < t {
                match name_of(types, elem as int) {
                    Ok(n) => Ok(array_name(n, len)),
                    Err(e) => Err(e),
                }
            } else {
                Err(CodegenError::UnrecognizedType)
            },
            TypeDesc::Struct { fields, alignment } => match field_names(types, fields@, t) {
                Ok(ns) => Ok(struct_name(ns, alignment)),
                Err(e) => Err(e),
            },
            TypeDesc::Opaque => Err(CodegenError::UnrecognizedType),
        }
    }
}

/// The names of a struct's field types, resolved left to right; the first
/// failing field's error otherwise.
pub open spec fn field_names(types: Seq<TypeDesc>, fields: Seq<usize>, bound: int) -> Result<
    Seq<Seq<char>>,
    CodegenError,
>
    decreases bound, 0int, fields.len(),
{
    if fields.len() == 0 {
        Ok(Seq::empty())
    } else if !(0 <= (fields[0] as int) < bound) {
        Err(CodegenError::UnrecognizedType)
    } else {
        match name_of(types, fields[0] as int) {
            Ok(n) => match field_names(types, fields.drop_first(), bound) {
                Ok(ns) => Ok(seq![n] + ns),
                Err(e) => Err(e),
            },
            Err(e) => Err(e),
        }
    }
}

/// Every generated type name is nonempty.
pub proof fn lemma_type_name_nonempty(types: Seq<TypeDesc>, t: int, n: Seq<char>)
    requires
        name_of(types, t) == Ok::<Seq<char>, CodegenError>(n),
    ensures
        n.len() > 0,
{
    reveal_strlit("void");
    reveal_strlit("bool");
    reveal_strlit("int16_t");
    reveal_strlit("int32_t");
    reveal_strlit("int64_t");
    reveal_strlit("uint16_t");
    reveal_strlit("uint32_t");
    reveal_strlit("uint64_t");
    reveal_strlit("half");
    reveal_strlit("float");
    reveal_strlit("lc_float");
    reveal_strlit("lc_array<");
    reveal_strlit("s_");
    match types[t] {
        TypeDesc::Vector { kind, dim } => {
            lemma_dec_digits_nonempty(dim as nat);
        },
        TypeDesc::Matrix { kind, dim } => {
            lemma_dec_digits_nonempty(dim as nat);
        },
        _ => {},
    }
}

/// Every name in a resolved field list is nonempty.
pub proof fn lemma_field_names_nonempty(
    types: Seq<TypeDesc>,
    fields: Seq<usize>,
    bound: int,
    ns: Seq<Seq<char>>,
)
    requires
        field_names(types, fields, bound) == Ok::<Seq<Seq<char>>, CodegenError>(ns),
    ensures
        forall|i: int| 0 <= i < ns.len() ==> (#[trigger] ns[i]).len() > 0,
    decreases fields.len(),
{
    if fields.len() > 0 {
        let n0 = name_of(types, fields[0] as int)->Ok_0;
        let rest = field_names(types, fields.drop_first(), bound)->Ok_0;
        lemma_type_name_nonempty(types, fields[0] as int, n0);
        lemma_field_names_nonempty(types, fields.drop_first(), bound, rest);
        assert(ns == seq![n0] + rest);
        assert(forall|i: int| 0 <= i < ns.len() ==> (#[trigger] ns[i]).len() > 0) by {
            assert(ns[0] == n0);
            assert(forall|i: int| 1 <= i < ns.len() ==> #[trigger] ns[i] == rest[i - 1]);
        }
    }
}

/// Content addressing: two structs whose field-type-name sequences or
/// alignments differ never collide on a generated name.
pub proof fn lemma_struct_names_injective(
    fns1: Seq<Seq<char>>,
    a1: u64,
    fns2: Seq<Seq<char>>,
    a2: u64,
)
    requires
        forall|i: int| 0 <= i < fns1.len() ==> (#[trigger] fns1[i]).len() > 0,
        forall|i: int| 0 <= i < fns2.len() ==> (#[trigger] fns2[i]).len() > 0,
        fns1 != fns2 || a1 != a2,
    ensures
        struct_name(fns1, a1) != struct_name(fns2, a2),
{
    let p1 = hex_parts(fns1).push(dec_digits(a1 as nat));
    let p2 = hex_parts(fns2).push(dec_digits(a2 as nat));
    assert forall|i: int| 0 <= i < p1.len() implies crate::text::sep_free(#[trigger] p1[i])
        && p1[i].len() > 0 by {
        lemma_part_facts(fns1, a1, i);
    }
    assert forall|i: int| 0 <= i < p2.len() implies crate::text::sep_free(#[trigger] p2[i])
        && p2[i].len() > 0 by {
        lemma_part_facts(fns2, a2, i);
    }
    if struct_name(fns1, a1) == struct_name(fns2, a2) {
        reveal_strlit("s_");
        lemma_append_split("s_"@, join_parts(p1), "s_"@, join_parts(p2));
        lemma_join_parts_injective(p1, p2);
        assert(p1 == p2);
        assert(p1.len() == p2.len());
        assert(hex_parts(fns1).len() == hex_parts(fns2).len());
        assert(p1.last() == p2.last());
        lemma_dec_digits_injective(a1 as nat, a2 as nat);
        assert(a1 == a2);
        assert forall|i: int| 0 <= i < fns1.len() implies #[trigger] fns1[i] == fns2[i] by {
            assert(p1[i] == p2[i]);
            assert(p1[i] == hex_chars(fns1[i]));
            assert(p2[i] == hex_chars(fns2[i]));
            lemma_hex_chars_injective(fns1[i], fns2[i]);
        }
        assert(fns1 =~= fns2);
        assert(false);
    }
}

proof fn lemma_part_facts(fns: Seq<Seq<char>>, a: u64, i: int)
    requires
        forall|k: int| 0 <= k < fns.len() ==> (#[trigger] fns[k]).len() > 0,
        0 <= i < hex_parts(fns).push(dec_digits(a as nat)).len(),
    ensures
        crate::text::sep_free(hex_parts(fns).push(dec_digits(a as nat))[i]),
        hex_parts(fns).push(dec_digits(a as nat))[i].len() > 0,
{
    let p = hex_parts(fns).push(dec_digits(a as nat));
    if i < fns.len() {
        assert(p[i] == hex_chars(fns[i]));
        lemma_hex_chars_sep_free(fns[i]);
        crate::text::lemma_hex_chars_len(fns[i]);
    } else {
        assert(p[i] == dec_digits(a as nat));
        lemma_dec_digits_sep_free(a as nat);
        lemma_dec_digits_nonempty(a as nat);
    }
}

/// Content addressing at descriptor level: distinct struct descriptors,
/// with differing resolved field-name sequences or differing alignments,
/// resolve to distinct generated names.
pub proof fn lemma_struct_content_addressing(
    types: Seq<TypeDesc>,
    t1: int,
    t2: int,
    n1: Seq<char>,
    n2: Seq<char>,
)
    requires
        0 <= t1 < types.len(),
        0 <= t2 < types.len(),
        name_of(types, t1) == Ok::<Seq<char>, CodegenError>(n1),
        name_of(types, t2) == Ok::<Seq<char>, CodegenError>(n2),
        types[t1] matches TypeDesc::Struct { fields: f1, alignment: a1 } && types[t2] matches
            TypeDesc::Struct { fields: f2, alignment: a2 } && (field_names(types, f1@, t1)
            != field_names(types, f2@, t2) || a1 != a2),
    ensures
        n1 != n2,
{
    let (f1, a1) = match types[t1] {
        TypeDesc::Struct { fields, alignment } => (fields, alignment),
        _ => arbitrary(),
    };
    let (f2, a2) = match types[t2] {
        TypeDesc::Struct { fields, alignment } => (fields, alignment),
        _ => arbitrary(),
    };
    let ns1 = field_names(types, f1@, t1)->Ok_0;
    let ns2 = field_names(types, f2@, t2)->Ok_0;
    assert(n1 == struct_name(ns1, a1));
    assert(n2 == struct_name(ns2, a2));
    lemma_field_names_nonempty(types, f1@, t1, ns1);
    lemma_field_names_nonempty(types, f2@, t2, ns2);
    lemma_struct_names_injective(ns1, a1, ns2, a2);
}

// ---------------------------------------------------------------------------
// Struct declaration text
// ---------------------------------------------------------------------------

/// A record of one emitted struct declaration: its content key.
pub struct StructSig {
    pub field_names: Seq<Seq<char>>,
    pub alignment: u64,
}

pub open spec fn field_decl_lines(ns: Seq<Seq<char>>) -> Seq<char>
    decreases ns.len(),
{
    if ns.len() == 0 {
        Seq::empty()
    } else {
        field_decl_lines(ns.drop_last()) + "    "@ + ns.last() + " f"@ + dec_digits(
            (ns.len() - 1) as nat,
        ) + ";\n"@
    }
}

pub open spec fn one_lines(ns: Seq<Seq<char>>) -> Seq<char>
    decreases ns.len(),
{
    if ns.len() == 0 {
        Seq::empty()
    } else {
        one_lines(ns.drop_last()) + "        lc_one<"@ + ns.last() + ">(),\n"@
    }
}

pub open spec fn zero_lines(ns: Seq<Seq<char>>) -> Seq<char>
    decreases ns.len(),
{
    if ns.len() == 0 {
        Seq::empty()
    } else {
        zero_lines(ns.drop_last()) + "        lc_zero<"@ + ns.last() + ">(),\n"@
    }
}

pub open spec fn grad_lines(n: nat) -> Seq<char>
    decreases n,
{
    if n == 0 {
        Seq::empty()
    } else {
        grad_lines((n - 1) as nat) + "        lc_accumulate_grad(&dst->f"@ + dec_digits(
            (n - 1) as nat,
        ) + ", grad.f"@ + dec_digits((n - 1) as nat) + ");\n"@
    }
}

/// The opening of a struct declaration.
pub open spec fn decl_head(name: Seq<char>, alignment: u64) -> Seq<char> {
    "struct alignas("@ + dec_digits(alignment as nat) + ") "@ + name + " {\n"@
}

/// The opening of the one-valued static factory.
pub open spec fn one_head(name: Seq<char>) -> Seq<char> {
    "    __device__ constexpr static auto one() {\n        return "@ + name + " {\n"@
}

/// The close of the one factory and the opening of the zero factory.
pub open spec fn zero_head(name: Seq<char>) -> Seq<char> {
    "        };\n    }\n    __device__ constexpr static auto zero() {\n        return "@ + name
        + " {\n"@
}

/// The close of the factories and of the aggregate, and the opening of the
/// gradient-accumulation routine.
pub open spec fn grad_head(name: Seq<char>) -> Seq<char> {
    "        };\n    }\n};\n__device__ inline void lc_accumulate_grad("@ + name + " *dst, "@
        + name + " grad) noexcept {\n"@
}

/// The full declaration emitted for one struct: the aligned aggregate with
/// positionally-named fields, the one/zero static factories, and the
/// element-wise gradient-accumulation routine.
pub open spec fn decl_text(sig: StructSig) -> Seq<char> {
    let name = struct_name(sig.field_names, sig.alignment);
    decl_head(name, sig.alignment) + field_decl_lines(sig.field_names) + one_head(name)
        + one_lines(sig.field_names) + zero_head(name) + zero_lines(sig.field_names) + grad_head(
        name,
    ) + grad_lines(sig.field_names.len()) + "    }\n"@
}

/// The concatenated declarations, in first-emission order.
pub open spec fn decls_text(sigs: Seq<StructSig>) -> Seq<char>
    decreases sigs.len(),
{
    if sigs.len() == 0 {
        Seq::empty()
    } else {
        decls_text(sigs.drop_last()) + decl_text(sigs.last())
    }
}

proof fn lemma_sig_prefix_trans(a: Seq<StructSig>, b: Seq<StructSig>, c: Seq<StructSig>)
    requires
        a.is_prefix_of(b),
        b.is_prefix_of(c),
    ensures
        a.is_prefix_of(c),
{
    assert(a =~= c.subrange(0, a.len() as int));
}

// ---------------------------------------------------------------------------
// The emission model
// ---------------------------------------------------------------------------

/// The descriptor handles inside `t`'s subtree, `t` included.
pub open spec fn sub_handles(types: Seq<TypeDesc>, t: int) -> Set<int>
    decreases t, 1int, 0int,
{
    if !(0 <= t < types.len()) {
        Set::empty()
    } else {
        (match types[t] {
            TypeDesc::Array { elem, len } => if 0 <= elem < t {
                sub_handles(types, elem as int)
            } else {
                Set::empty()
            },
            TypeDesc::Struct { fields, alignment } => field_sub_handles(types, fields@, t),
            _ => Set::empty(),
        }).insert(t)
    }
}

pub open spec fn field_sub_handles(types: Seq<TypeDesc>, fields: Seq<usize>, bound: int) -> Set<
    int,
>
    decreases bound, 0int, fields.len(),
{
    if fields.len() == 0 {
        Set::empty()
    } else if !(0 <= (fields[0] as int) < bound) {
        Set::empty()
    } else {
        sub_handles(types, fields[0] as int).union(
            field_sub_handles(types, fields.drop_first(), bound),
        )
    }
}

/// The struct content keys resolvable inside `t`'s subtree.
pub open spec fn sub_sigs(types: Seq<TypeDesc>, t: int) -> Set<StructSig>
    decreases t, 1int, 0int,
{
    if !(0 <= t < types.len()) {
        Set::empty()
    } else {
        match types[t] {
            TypeDesc::Array { elem, len } => if 0 <= elem < t {
                sub_sigs(types, elem as int)
            } else {
                Set::empty()
            },
            TypeDesc::Struct { fields, alignment } => field_sub_sigs(types, fields@, t).union(
                match field_names(types, fields@, t) {
                    Ok(ns) => Set::empty().insert(StructSig { field_names: ns, alignment }),
                    Err(e) => Set::empty(),
                },
            ),
            _ => Set::empty(),
        }
    }
}

pub open spec fn field_sub_sigs(types: Seq<TypeDesc>, fields: Seq<usize>, bound: int) -> Set<
    StructSig,
>
    decreases bound, 0int, fields.len(),
{
    if fields.len() == 0 {
        Set::empty()
    } else if !(0 <= (fields[0] as int) < bound) {
        Set::empty()
    } else {
        sub_sigs(types, fields[0] as int).union(
            field_sub_sigs(types, fields.drop_first(), bound),
        )
    }
}

/// The declarations that resolving `t` appends, in resolution order, given
/// the keys already emitted: a leaf appends nothing, an array defers to
/// its element, and a struct appends its fields' new keys first (left to
/// right, stopping at a failing field) and then its own key unless already
/// present — nested types before their containers, each key at most once.
pub open spec fn emit_trace(types: Seq<TypeDesc>, t: int, done: Seq<StructSig>) -> Seq<StructSig>
    decreases t, 1int, 0int,
{
    if !(0 <= t < types.len()) {
        Seq::empty()
    } else {
        match types[t] {
            TypeDesc::Array { elem, len } => if 0 <= elem < t {
                emit_trace(types, elem as int, done)
            } else {
                Seq::empty()
            },
            TypeDesc::Struct { fields, alignment } => {
                let pre = fields_trace(types, fields@, t, done);
                match field_names(types, fields@, t) {
                    Ok(ns) => {
                        let sig = StructSig { field_names: ns, alignment };
                        if (done + pre).contains(sig) {
                            pre
                        } else {
                            pre.push(sig)
                        }
                    },
                    Err(e) => pre,
                }
            },
            _ => Seq::empty(),
        }
    }
}

pub open spec fn fields_trace(
    types: Seq<TypeDesc>,
    fields: Seq<usize>,
    bound: int,
    done: Seq<StructSig>,
) -> Seq<StructSig>
    decreases bound, 0int, fields.len(),
{
    if fields.len() == 0 {
        Seq::empty()
    } else if !(0 <= (fields[0] as int) < bound) {
        Seq::empty()
    } else {
        let tr = emit_trace(types, fields[0] as int, done);
        if name_of(types, fields[0] as int) is Err {
            tr
        } else {
            tr + fields_trace(types, fields.drop_first(), bound, done + tr)
        }
    }
}

proof fn lemma_sub_handles_bounded(types: Seq<TypeDesc>, t: int)
    ensures
        forall|x: int| #[trigger] sub_handles(types, t).contains(x) ==> x <= t,
    decreases t, 1int, 0int,
{
    if 0 <= t < types.len() {
        match types[t] {
            TypeDesc::Array { elem, len } => {
                if 0 <= elem < t {
                    lemma_sub_handles_bounded(types, elem as int);
                }
            },
            TypeDesc::Struct { fields, alignment } => {
                lemma_field_sub_handles_bounded(types, fields@, t);
            },
            _ => {},
        }
        assert forall|x: int| #[trigger] sub_handles(types, t).contains(x) implies x <= t by {
            if x != t {
                match types[t] {
                    TypeDesc::Array { elem, len } => {
                        assert(0 <= elem < t && sub_handles(types, elem as int).contains(x));
                    },
                    TypeDesc::Struct { fields, alignment } => {
                        assert(field_sub_handles(types, fields@, t).contains(x));
                    },
                    _ => {
                        assert(Set::<int>::empty().contains(x));
                    },
                }
            }
        }
    }
}

proof fn lemma_field_sub_handles_bounded(types: Seq<TypeDesc>, fields: Seq<usize>, bound: int)
    ensures
        forall|x: int| #[trigger] field_sub_handles(types, fields, bound).contains(x) ==> x
            < bound,
    decreases bound, 0int, fields.len(),
{
    if fields.len() > 0 && 0 <= (fields[0] as int) < bound {
        lemma_sub_handles_bounded(types, fields[0] as int);
        lemma_field_sub_handles_bounded(types, fields.drop_first(), bound);
        assert forall|x: int|
            #[trigger] field_sub_handles(types, fields, bound).contains(x) implies x < bound by {
            if sub_handles(types, fields[0] as int).contains(x) {
                assert(x <= fields[0] as int);
            } else {
                assert(field_sub_handles(types, fields.drop_first(), bound).contains(x));
            }
        }
    }
}

/// Each field's subtree handles lie inside the field list's handle set.
proof fn lemma_field_sub_handles_at(types: Seq<TypeDesc>, fields: Seq<usize>, bound: int, j: int)
    requires
        0 <= j < fields.len(),
        forall|k: int| 0 <= k < fields.len() ==> 0 <= (#[trigger] fields[k] as int) < bound,
    ensures
        forall|x: int|
            #[trigger] sub_handles(types, fields[j] as int).contains(x)
                ==> field_sub_handles(types, fields, bound).contains(x),
    decreases j,
{
    if j > 0 {
        lemma_field_sub_handles_at(types, fields.drop_first(), bound, j - 1);
        assert(fields.drop_first()[j - 1] == fields[j]);
    }
}

/// Each field's subtree keys lie inside the field list's key set.
proof fn lemma_field_sub_sigs_at(types: Seq<TypeDesc>, fields: Seq<usize>, bound: int, j: int)
    requires
        0 <= j < fields.len(),
        forall|k: int| 0 <= k < fields.len() ==> 0 <= (#[trigger] fields[k] as int) < bound,
    ensures
        forall|sig: StructSig|
            #[trigger] sub_sigs(types, fields[j] as int).contains(sig)
                ==> field_sub_sigs(types, fields, bound).contains(sig),
    decreases j,
{
    if j > 0 {
        lemma_field_sub_sigs_at(types, fields.drop_first(), bound, j - 1);
        assert(fields.drop_first()[j - 1] == fields[j]);
    }
}

/// Once every key of `t`'s subtree is emitted, resolving `t` appends
/// nothing.
proof fn lemma_trace_empty(types: Seq<TypeDesc>, t: int, done: Seq<StructSig>)
    requires
        forall|sig: StructSig|
            #[trigger] sub_sigs(types, t).contains(sig) ==> done.contains(sig),
    ensures
        emit_trace(types, t, done) == Seq::<StructSig>::empty(),
    decreases t, 1int, 0int,
{
    if 0 <= t < types.len() {
        match types[t] {
            TypeDesc::Array { elem, len } => {
                if 0 <= elem < t {
                    assert forall|sig: StructSig|
                        #[trigger] sub_sigs(types, elem as int).contains(
                            sig,
                        ) implies done.contains(sig) by {
                        assert(sub_sigs(types, t).contains(sig));
                    }
                    lemma_trace_empty(types, elem as int, done);
                }
            },
            TypeDesc::Struct { fields, alignment } => {
                assert forall|sig: StructSig|
                    #[trigger] field_sub_sigs(types, fields@, t).contains(
                        sig,
                    ) implies done.contains(sig) by {
                    assert(sub_sigs(types, t).contains(sig));
                }
                lemma_fields_trace_empty(types, fields@, t, done);
                match field_names(types, fields@, t) {
                    Ok(ns) => {
                        let sig = StructSig { field_names: ns, alignment };
                        assert(sub_sigs(types, t).contains(sig));
                        assert(done.contains(sig));
                        assert(done + fields_trace(types, fields@, t, done) =~= done);
                        assert((done + fields_trace(types, fields@, t, done)).contains(sig));
                    },
                    Err(e) => {},
                }
            },
            _ => {},
        }
    }
}

proof fn lemma_fields_trace_empty(
    types: Seq<TypeDesc>,
    fields: Seq<usize>,
    bound: int,
    done: Seq<StructSig>,
)
    requires
        forall|sig: StructSig|
            #[trigger] field_sub_sigs(types, fields, bound).contains(sig) ==> done.contains(sig),
    ensures
        fields_trace(types, fields, bound, done) == Seq::<StructSig>::empty(),
    decreases bound, 0int, fields.len(),
{
    if fields.len() > 0 && 0 <= (fields[0] as int) < bound {
        assert forall|sig: StructSig|
            #[trigger] sub_sigs(types, fields[0] as int).contains(sig) implies done.contains(
            sig,
        ) by {
            assert(field_sub_sigs(types, fields, bound).contains(sig));
        }
        lemma_trace_empty(types, fields[0] as int, done);
        if !(name_of(types, fields[0] as int) is Err) {
            assert(done + emit_trace(types, fields[0] as int, done) =~= done);
            assert forall|sig: StructSig|
                #[trigger] field_sub_sigs(types, fields.drop_first(), bound).contains(
                    sig,
                ) implies done.contains(sig) by {
                assert(field_sub_sigs(types, fields, bound).contains(sig));
            }
            lemma_fields_trace_empty(types, fields.drop_first(), bound, done);
        }
    }
}

/// Every key in `t`'s subtree is present once `t` resolves: in the
/// already-emitted declarations or in the trace this resolution appends.
proof fn lemma_trace_covers(types: Seq<TypeDesc>, t: int, done: Seq<StructSig>)
    requires
        name_of(types, t) is Ok,
    ensures
        forall|sig: StructSig|
            #[trigger] sub_sigs(types, t).contains(sig) ==> (done + emit_trace(
                types,
                t,
                done,
            )).contains(sig),
    decreases t, 1int, 0int,
{
    if 0 <= t < types.len() {
        match types[t] {
            TypeDesc::Array { elem, len } => {
                if 0 <= elem < t {
                    assert(name_of(types, elem as int) is Ok);
                    lemma_trace_covers(types, elem as int, done);
                    assert(emit_trace(types, t, done) == emit_trace(types, elem as int, done));
                    assert(sub_sigs(types, t) == sub_sigs(types, elem as int));
                } else {
                    assert(name_of(types, t) is Err);
                    assert(false);
                }
            },
            TypeDesc::Struct { fields, alignment } => {
                let pre = fields_trace(types, fields@, t, done);
                assert(field_names(types, fields@, t) is Ok);
                lemma_fields_trace_covers(types, fields@, t, done);
                let ns = field_names(types, fields@, t)->Ok_0;
                let sig0 = StructSig { field_names: ns, alignment };
                let tr = emit_trace(types, t, done);
                assert forall|sig: StructSig|
                    #[trigger] sub_sigs(types, t).contains(sig) implies (done + tr).contains(
                    sig,
                ) by {
                    if field_sub_sigs(types, fields@, t).contains(sig) {
                        assert((done + pre).contains(sig));
                        let w = choose|w: int|
                            0 <= w < (done + pre).len() && (done + pre)[w] == sig;
                        assert((done + tr)[w] == sig);
                    } else {
                        assert(sig == sig0);
                        if (done + pre).contains(sig0) {
                            let w = choose|w: int|
                                0 <= w < (done + pre).len() && (done + pre)[w] == sig0;
                            assert((done + tr)[w] == sig0);
                        } else {
                            assert(tr == pre.push(sig0));
                            assert((done + tr)[(done + tr).len() - 1] == sig0);
                        }
                    }
                }
            },
            _ => {
                assert(sub_sigs(types, t) =~= Set::<StructSig>::empty());
            },
        }
    } else {
        assert(name_of(types, t) is Err);
        assert(false);
    }
}

proof fn lemma_fields_trace_covers(
    types: Seq<TypeDesc>,
    fields: Seq<usize>,
    bound: int,
    done: Seq<StructSig>,
)
    requires
        field_names(types, fields, bound) is Ok,
    ensures
        forall|sig: StructSig|
            #[trigger] field_sub_sigs(types, fields, bound).contains(sig) ==> (done + fields_trace(
                types,
                fields,
                bound,
                done,
            )).contains(sig),
    decreases bound, 0int, fields.len(),
{
    if fields.len() > 0 && 0 <= (fields[0] as int) < bound {
        assert(name_of(types, fields[0] as int) is Ok);
        lemma_trace_covers(types, fields[0] as int, done);
        let tr = emit_trace(types, fields[0] as int, done);
        assert(field_names(types, fields.drop_first(), bound) is Ok);
        lemma_fields_trace_covers(types, fields.drop_first(), bound, done + tr);
        let rest = fields_trace(types, fields.drop_first(), bound, done + tr);
        assert(fields_trace(types, fields, bound, done) == tr + rest);
        assert forall|sig: StructSig|
            #[trigger] field_sub_sigs(types, fields, bound).contains(sig) implies (done + (tr
            + rest)).contains(sig) by {
            if sub_sigs(types, fields[0] as int).contains(sig) {
                let w = choose|w: int| 0 <= w < (done + tr).len() && (done + tr)[w] == sig;
                assert((done + (tr + rest))[w] == sig);
            } else {
                assert(field_sub_sigs(types, fields.drop_first(), bound).contains(sig));
                let w = choose|w: int|
                    0 <= w < ((done + tr) + rest).len() && ((done + tr) + rest)[w] == sig;
                assert((done + (tr + rest))[w] == ((done + tr) + rest)[w]);
            }
        }
    }
}

/// Nested types are declared before their containers: when resolving a
/// struct appends the container's own key, the key of each struct-typed
/// field already stands at a strictly earlier position of the emitted
/// sequence.
pub proof fn lemma_nested_declared_before_container(
    types: Seq<TypeDesc>,
    t: int,
    done: Seq<StructSig>,
    j: int,
)
    requires
        0 <= t < types.len(),
        name_of(types, t) is Ok,
        types[t] matches TypeDesc::Struct { fields, alignment } && 0 <= j < fields@.len() && 0 <= (
        fields@[j] as int) < t && types[fields@[j] as int] is Struct && !(done + fields_trace(
            types,
            fields@,
            t,
        // the container's key is newly appended by this resolution
            done,
        )).contains(
            StructSig {
                field_names: field_names(types, fields@, t)->Ok_0,
                alignment,
            },
        ),
    ensures
        ({
            let fields = types[t]->Struct_fields;
            let alignment = types[t]->Struct_alignment;
            let out = done + emit_trace(types, t, done);
            let own = StructSig { field_names: field_names(types, fields@, t)->Ok_0, alignment };
            let f = fields@[j] as int;
            let fsig = StructSig {
                field_names: field_names(types, types[f]->Struct_fields@, f)->Ok_0,
                alignment: types[f]->Struct_alignment,
            };
            &&& out.len() > 0
            &&& out.last() == own
            &&& exists|p: int| 0 <= p < out.len() - 1 && out[p] == fsig
        }),
{
    let fields = types[t]->Struct_fields;
    let alignment = types[t]->Struct_alignment;
    let pre = fields_trace(types, fields@, t, done);
    let ns = field_names(types, fields@, t)->Ok_0;
    let own = StructSig { field_names: ns, alignment };
    assert(emit_trace(types, t, done) == pre.push(own));
    let out = done + emit_trace(types, t, done);
    assert(out.last() == own);
    let f = fields@[j] as int;
    let fsig = StructSig {
        field_names: field_names(types, types[f]->Struct_fields@, f)->Ok_0,
        alignment: types[f]->Struct_alignment,
    };
    assert(name_of(types, f) is Ok) by {
        lemma_field_names_at(types, fields@, t, j);
    }
    assert(sub_sigs(types, f).contains(fsig)) by {
        assert(field_names(types, types[f]->Struct_fields@, f) is Ok);
    }
    assert forall|k: int| 0 <= k < fields@.len() implies 0 <= (#[trigger] fields@[k] as int)
        < t by {
        lemma_field_names_at(types, fields@, t, k);
    }
    lemma_field_sub_sigs_at(types, fields@, t, j);
    assert(field_sub_sigs(types, fields@, t).contains(fsig));
    assert(field_names(types, fields@, t) is Ok);
    lemma_fields_trace_covers(types, fields@, t, done);
    assert((done + pre).contains(fsig));
    let w = choose|w: int| 0 <= w < (done + pre).len() && (done + pre)[w] == fsig;
    assert(out[w] == fsig);
    assert(out.len() == (done + pre).len() + 1);
}

/// A resolvable struct has resolvable fields.
proof fn lemma_field_names_at(types: Seq<TypeDesc>, fields: Seq<usize>, bound: int, j: int)
    requires
        field_names(types, fields, bound) is Ok,
        0 <= j < fields.len(),
    ensures
        name_of(types, fields[j] as int) is Ok,
        0 <= (fields[j] as int) < bound,
    decreases j,
{
    if j > 0 {
        lemma_field_names_at(types, fields.drop_first(), bound, j - 1);
        assert(fields.drop_first()[j - 1] == fields[j]);
    }
}

// ---------------------------------------------------------------------------
// Executable name tables
// ---------------------------------------------------------------------------

fn scalar_str(k: ScalarKind) -> (r: &'static str)
    ensures
        r@ == scalar_name(k),
{
    match k {
        ScalarKind::Bool => "bool",
        ScalarKind::Int16 => "int16_t",
        ScalarKind::Int32 => "int32_t",
        ScalarKind::Int64 => "int64_t",
        ScalarKind::Uint16 => "uint16_t",
        ScalarKind::Uint32 => "uint32_t",
        ScalarKind::Uint64 => "uint64_t",
        ScalarKind::Float16 => "half",
        ScalarKind::Float32 => "float",
    }
}

fn vector_prefix_str(k: ScalarKind) -> (r: &'static str)
    ensures
        r@ == vector_prefix(k),
{
    match k {
        ScalarKind::Bool => "lc_bool",
        ScalarKind::Int16 => "lc_short",
        ScalarKind::Int32 => "lc_int",
        ScalarKind::Int64 => "lc_long",
        ScalarKind::Uint16 => "lc_ushort",
        ScalarKind::Uint32 => "lc_uint",
        ScalarKind::Uint64 => "lc_ulong",
        ScalarKind::Float16 => "lc_half",
        ScalarKind::Float32 => "lc_float",
    }
}

// ---------------------------------------------------------------------------
// Declaration emission
// ---------------------------------------------------------------------------

fn push_field_lines(out: &mut String, names: &Vec<String>)
    ensures
        final(out)@ == old(out)@ + field_decl_lines(views(names@)),
{
    let n = names.len();
    let mut i: usize = 0;
    while i < n
        invariant
            i <= n,
            n == names@.len(),
            out@ == old(out)@ + field_decl_lines(views(names@).take(i as int)),
        decreases n - i,
    {
        out.append("    ");
        out.append(names[i].as_str());
        out.append(" f");
        let d = dec_u64(i as u64);
        out.append(d.as_str());
        out.append(";\n");
        proof {
            let vs = views(names@);
            assert(vs.take(i as int + 1).drop_last() =~= vs.take(i as int));
            assert(vs.take(i as int + 1).last() == names@[i as int]@);
            assert(out@ =~= old(out)@ + field_decl_lines(vs.take(i as int + 1)));
        }
        i = i + 1;
    }
    proof {
        assert(views(names@).take(n as int) =~= views(names@));
    }
}

fn push_one_lines(out: &mut String, names: &Vec<String>)
    ensures
        final(out)@ == old(out)@ + one_lines(views(names@)),
{
    let n = names.len();
    let mut i: usize = 0;
    while i < n
        invariant
            i <= n,
            n == names@.len(),
            out@ == old(out)@ + one_lines(views(names@).take(i as int)),
        decreases n - i,
    {
        out.append("        lc_one<");
        out.append(names[i].as_str());
        out.append(">(),\n");
        proof {
            let vs = views(names@);
            assert(vs.take(i as int + 1).drop_last() =~= vs.take(i as int));
            assert(vs.take(i as int + 1).last() == names@[i as int]@);
            assert(out@ =~= old(out)@ + one_lines(vs.take(i as int + 1)));
        }
        i = i + 1;
    }
    proof {
        assert(views(names@).take(n as int) =~= views(names@));
    }
}

fn push_zero_lines(out: &mut String, names: &Vec<String>)
    ensures
        final(out)@ == old(out)@ + zero_lines(views(names@)),
{
    let n = names.len();
    let mut i: usize = 0;
    while i < n
        invariant
            i <= n,
            n == names@.len(),
            out@ == old(out)@ + zero_lines(views(names@).take(i as int)),
        decreases n - i,
    {
        out.append("        lc_zero<");
        out.append(names[i].as_str());
        out.append(">(),\n");
        proof {
            let vs = views(names@);
            assert(vs.take(i as int + 1).drop_last() =~= vs.take(i as int));
            assert(vs.take(i as int + 1).last() == names@[i as int]@);
            assert(out@ =~= old(out)@ + zero_lines(vs.take(i as int + 1)));
        }
        i = i + 1;
    }
    proof {
        assert(views(names@).take(n as int) =~= views(names@));
    }
}

fn push_grad_lines(out: &mut String, n: usize)
    ensures
        final(out)@ == old(out)@ + grad_lines(n as nat),
{
    let mut i: usize = 0;
    while i < n
        invariant
            i <= n,
            out@ == old(out)@ + grad_lines(i as nat),
        decreases n - i,
    {
        out.append("        lc_accumulate_grad(&dst->f");
        let d = dec_u64(i as u64);
        out.append(d.as_str());
        out.append(", grad.f");
        out.append(d.as_str());
        out.append(");\n");
        proof {
            assert(out@ =~= old(out)@ + grad_lines((i + 1) as nat));
        }
        i = i + 1;
    }
}

fn push_decl_head(out: &mut String, name: &String, alignment: u64)
    ensures
        final(out)@ == old(out)@ + decl_head(name@, alignment),
{
    out.append("struct alignas(");
    let d = dec_u64(alignment);
    out.append(d.as_str());
    out.append(") ");
    out.append(name.as_str());
    out.append(" {\n");
    proof {
        assert(final(out)@ =~= old(out)@ + decl_head(name@, alignment));
    }
}

fn push_one_head(out: &mut String, name: &String)
    ensures
        final(out)@ == old(out)@ + one_head(name@),
{
    out.append("    __device__ constexpr static auto one() {\n        return ");
    out.append(name.as_str());
    out.append(" {\n");
    proof {
        assert(final(out)@ =~= old(out)@ + one_head(name@));
    }
}

fn push_zero_head(out: &mut String, name: &String)
    ensures
        final(out)@ == old(out)@ + zero_head(name@),
{
    out.append("        };\n    }\n    __device__ constexpr static auto zero() {\n        return ");
    out.append(name.as_str());
    out.append(" {\n");
    proof {
        assert(final(out)@ =~= old(out)@ + zero_head(name@));
    }
}

fn push_grad_head(out: &mut String, name: &String)
    ensures
        final(out)@ == old(out)@ + grad_head(name@),
{
    out.append("        };\n    }\n};\n__device__ inline void lc_accumulate_grad(");
    out.append(name.as_str());
    out.append(" *dst, ");
    out.append(name.as_str());
    out.append(" grad) noexcept {\n");
    proof {
        assert(final(out)@ =~= old(out)@ + grad_head(name@));
    }
}

#[verifier::rlimit(80)]
fn push_struct_decl(out: &mut String, names: &Vec<String>, alignment: u64, name: &String)
    requires
        name@ == struct_name(views(names@), alignment),
    ensures
        final(out)@ == old(out)@ + decl_text(
            StructSig { field_names: views(names@), alignment },
        ),
{
    push_decl_head(out, name, alignment);
    push_field_lines(out, names);
    push_one_head(out, name);
    push_one_lines(out, names);
    push_zero_head(out, name);
    push_zero_lines(out, names);
    push_grad_head(out, name);
    push_grad_lines(out, names.len());
    out.append("    }\n");
    proof {
        assert(final(out)@ =~= old(out)@ + decl_text(
            StructSig { field_names: views(names@), alignment },
        ));
    }
}

// ---------------------------------------------------------------------------
// The registry
// ---------------------------------------------------------------------------

/// Canonicalizes type descriptors into target type names and accumulates
/// deduplicated struct declarations for one compilation unit.
pub struct TypeRegistry {
    /// Memoized name per descriptor handle.
    pub cache: Vec<Option<String>>,
    /// The accumulated struct declarations, in first-emission order.
    pub typedefs: String,
    /// The names already emitted, aligned with `emitted`.
    pub emitted_names: Vec<String>,
    /// The content keys already emitted, in first-emission order.
    pub emitted: Ghost<Seq<StructSig>>,
}

/// The cached name `n` is the generated name of descriptor `i`. Kept
/// opaque so that quantifying over cache entries stays cheap.
#[verifier::opaque]
pub open spec fn entry_ok(types: Seq<TypeDesc>, i: int, n: Seq<char>) -> bool {
    name_of(types, i) == Ok::<Seq<char>, CodegenError>(n)
}

/// Appending one new, distinctly named declaration preserves
/// well-formedness.
proof fn lemma_emission_step(
    before: TypeRegistry,
    after: TypeRegistry,
    arena: &TypeArena,
    sig: StructSig,
    nm: Seq<char>,
)
    requires
        before.wf(arena),
        forall|j: int| 0 <= j < sig.field_names.len() ==> (#[trigger] sig.field_names[j]).len()
            > 0,
        after.cache@ == before.cache@,
        after.emitted@ == before.emitted@.push(sig),
        after.emitted_names@.len() == before.emitted_names@.len() + 1,
        forall|q: int|
            0 <= q < before.emitted_names@.len() ==> after.emitted_names@[q]
                == before.emitted_names@[q],
        after.emitted_names@.last()@ == nm,
        nm == struct_name(sig.field_names, sig.alignment),
        after.typedefs@ == before.typedefs@ + decl_text(sig),
        forall|q: int|
            0 <= q < before.emitted_names@.len() ==> (#[trigger] before.emitted_names@[q])@ != nm,
    ensures
        after.wf(arena),
        before.emitted@.is_prefix_of(after.emitted@),
        after.name_emitted(nm),
        after.emitted@.contains(sig),
{
    assert(after.emitted@[before.emitted@.len() as int] == sig);
    assert(after.emitted@.drop_last() =~= before.emitted@);
    assert(after.emitted@.last() == sig);
    assert(decls_text(after.emitted@) == decls_text(before.emitted@) + decl_text(sig));
    assert(before.emitted@ =~= after.emitted@.subrange(0, before.emitted@.len() as int));
    let k = before.emitted_names@.len() as int;
    assert(after.emitted_names@[k]@ == nm);
    assert forall|q: int| 0 <= q < after.cache@.len() implies ((#[trigger] after.cache@[q]) matches
        Some(n) ==> entry_ok(arena.types@, q, n@) && (arena.types@[q] is Struct
        ==> after.name_emitted(n@))) by {
        assert(before.cache@[q] == after.cache@[q]);
        if after.cache@[q] is Some && arena.types@[q] is Struct {
            let nv = after.cache@[q]->0@;
            assert(before.name_emitted(nv));
            let w = choose|w: int|
                0 <= w < before.emitted_names@.len() && (#[trigger] before.emitted_names@[w])@
                    == nv;
            assert(after.emitted_names@[w]@ == nv);
        }
    }
    assert forall|i: int, sg: StructSig|
        0 <= i < after.cache@.len() && (#[trigger] after.cache@[i]) is Some && #[trigger] sub_sigs(
            arena.types@,
            i,
        ).contains(sg) implies after.emitted@.contains(sg) by {
        assert(before.cache@[i] == after.cache@[i]);
        assert(before.emitted@.contains(sg));
        let w = choose|w: int| 0 <= w < before.emitted@.len() && before.emitted@[w] == sg;
        assert(after.emitted@[w] == sg);
    }
    assert forall|k: int, j: int|
        0 <= k < after.emitted@.len() && 0 <= j < after.emitted@[k].field_names.len() implies (
    #[trigger] after.emitted@[k].field_names[j]).len() > 0 by {
        if k < before.emitted@.len() {
            assert(after.emitted@[k] == before.emitted@[k]);
            assert(before.emitted@[k].field_names[j].len() > 0);
        } else {
            assert(after.emitted@[k] == sig);
        }
    }
}

impl TypeRegistry {
    /// Some emitted declaration bears the name `n`.
    pub open spec fn name_emitted(&self, n: Seq<char>) -> bool {
        exists|k: int|
            0 <= k < self.emitted_names@.len() && (#[trigger] self.emitted_names@[k])@ == n
    }

    pub open spec fn emitted_wf(&self) -> bool {
        &&& self.emitted_names@.len() == self.emitted@.len()
        &&& forall|i: int|
            0 <= i < self.emitted@.len() ==> (#[trigger] self.emitted_names@[i])@ == struct_name(
                self.emitted@[i].field_names,
                self.emitted@[i].alignment,
            )
        &&& self.typedefs@ == decls_text(self.emitted@)
        &&& forall|i: int, j: int|
            0 <= i < j < self.emitted@.len() ==> (#[trigger] self.emitted_names@[i])@ != (
            #[trigger] self.emitted_names@[j])@
    }

    /// Every emitted content key has nonempty field-type names.
    pub open spec fn sigs_nonempty(&self) -> bool {
        forall|k: int, j: int|
            0 <= k < self.emitted@.len() && 0 <= j < self.emitted@[k].field_names.len()
                ==> (#[trigger] self.emitted@[k].field_names[j]).len() > 0
    }

    /// Every struct key inside a cached descriptor's subtree is emitted.
    pub open spec fn covered(&self, arena: &TypeArena) -> bool {
        forall|i: int, sig: StructSig|
            0 <= i < self.cache@.len() && (#[trigger] self.cache@[i]) is Some && #[trigger] sub_sigs(
                arena.types@,
                i,
            ).contains(sig) ==> self.emitted@.contains(sig)
    }

    /// Every cached name agrees with `name_of`, every cached struct name
    /// has its declaration emitted (at most once per distinct name), and
    /// every struct key under a cached descriptor is emitted.
    pub open spec fn wf(&self, arena: &TypeArena) -> bool {
        &&& self.emitted_wf()
        &&& self.sigs_nonempty()
        &&& self.covered(arena)
        &&& self.cache@.len() <= arena.types@.len()
        &&& forall|i: int|
            0 <= i < self.cache@.len() ==> ((#[trigger] self.cache@[i]) matches Some(n) ==>
            entry_ok(arena.types@, i, n@) && (arena.types@[i] is Struct ==> self.name_emitted(
                n@,
            )))
    }

    pub fn new() -> (r: Self)
        ensures
            r.cache@.len() == 0,
            r.typedefs@ == Seq::<char>::empty(),
            r.emitted@ == Seq::<StructSig>::empty(),
            r.emitted_names@.len() == 0,
            forall|arena: TypeArena| r.wf(&arena),
    {
        let r = TypeRegistry {
            cache: Vec::new(),
            typedefs: String::new(),
            emitted_names: Vec::new(),
            emitted: Ghost(Seq::empty()),
        };
        proof {
            assert(decls_text(Seq::<StructSig>::empty()) =~= Seq::<char>::empty());
        }
        r
    }

    /// The accumulated struct declarations, concatenated in first-emission
    /// order.
    pub fn generated(&self) -> (r: String)
        ensures
            r@ == self.typedefs@,
    {
        self.typedefs.clone()
    }

    #[verifier::rlimit(100)]
    fn gen_struct_fields(&mut self, arena: &TypeArena, t: usize, fields: &Vec<usize>) -> (r: Result<
        Vec<String>,
        CodegenError,
    >)
        requires
            arena.wf(),
            t < arena.types@.len(),
            forall|k: int| 0 <= k < fields@.len() ==> (#[trigger] fields@[k]) < t,
            old(self).wf(arena),
        ensures
            final(self).wf(arena),
            old(self).emitted@.is_prefix_of(final(self).emitted@),
            final(self).cache@.len() >= old(self).cache@.len(),
            forall|q: int|
                0 <= q < old(self).cache@.len() && (#[trigger] old(self).cache@[q]) is Some
                    ==> final(self).cache@[q] == old(self).cache@[q],
            final(self).emitted@ == old(self).emitted@ + fields_trace(
                arena.types@,
                fields@,
                t as int,
                old(self).emitted@,
            ),
            r is Ok ==> forall|sig: StructSig|
                #[trigger] field_sub_sigs(arena.types@, fields@, t as int).contains(sig)
                    ==> final(self).emitted@.contains(sig),
            forall|q: int|
                0 <= q < final(self).cache@.len() && (#[trigger] final(self).cache@[q]) is Some
                    ==> (q < old(self).cache@.len() && old(self).cache@[q] == final(self).cache@[q])
                    || field_sub_handles(arena.types@, fields@, t as int).contains(q),
            match r {
                Ok(names) => field_names(arena.types@, fields@, t as int) == Ok::<
                    Seq<Seq<char>>,
                    CodegenError,
                >(views(names@)),
                Err(e) => field_names(arena.types@, fields@, t as int) == Err::<
                    Seq<Seq<char>>,
                    CodegenError,
                >(e),
            },
        decreases t, 0int,
    {
        let n = fields.len();
        let mut names: Vec<String> = Vec::new();
        let mut i: usize = 0;
        proof {
            assert(fields@.skip(0) =~= fields@);
            assert(views(names@) =~= Seq::<Seq<char>>::empty());
            let r0 = field_names(arena.types@, fields@, t as int);
            if r0 is Ok {
                assert(views(names@) + r0->Ok_0 =~= r0->Ok_0);
            }
        }
        while i < n
            invariant
                i <= n,
                n == fields@.len(),
                arena.wf(),
                t < arena.types@.len(),
                forall|k: int| 0 <= k < fields@.len() ==> (#[trigger] fields@[k]) < t,
                self.wf(arena),
                old(self).emitted@.is_prefix_of(self.emitted@),
                self.cache@.len() >= old(self).cache@.len(),
                forall|q: int|
                    0 <= q < old(self).cache@.len() && (#[trigger] old(self).cache@[q]) is Some
                        ==> self.cache@[q] == old(self).cache@[q],
                old(self).emitted@ + fields_trace(arena.types@, fields@, t as int, old(self).emitted@)
                    == self.emitted@ + fields_trace(
                    arena.types@,
                    fields@.skip(i as int),
                    t as int,
                    self.emitted@,
                ),
                forall|sig: StructSig|
                    #[trigger] field_sub_sigs(arena.types@, fields@, t as int).contains(sig)
                        ==> field_sub_sigs(arena.types@, fields@.skip(i as int), t as int).contains(
                        sig,
                    ) || self.emitted@.contains(sig),
                forall|q: int|
                    0 <= q < self.cache@.len() && (#[trigger] self.cache@[q]) is Some ==> (q < old(
                        self,
                    ).cache@.len() && old(self).cache@[q] == self.cache@[q])
                        || field_sub_handles(arena.types@, fields@, t as int).contains(q),
                field_names(arena.types@, fields@, t as int) == (match field_names(
                    arena.types@,
                    fields@.skip(i as int),
                    t as int,
                ) {
                    Ok(ns) => Ok::<Seq<Seq<char>>, CodegenError>(views(names@) + ns),
                    Err(e) => Err::<Seq<Seq<char>>, CodegenError>(e),
                }),
            decreases n - i,
        {
            let f = fields[i];
            let ghost mid = *self;
            let res = self.gen_type(arena, f);
            proof {
                lemma_sig_prefix_trans(old(self).emitted@, mid.emitted@, self.emitted@);
                assert(fields@.skip(i as int).len() > 0);
                assert(fields@.skip(i as int)[0] == fields@[i as int]);
                assert(fields@.skip(i as int).drop_first() =~= fields@.skip(i as int + 1));
                // Cache growth stays inside the field list's subtrees.
                lemma_field_sub_handles_at(arena.types@, fields@, t as int, i as int);
                assert forall|q: int|
                    0 <= q < self.cache@.len() && (#[trigger] self.cache@[q]) is Some implies (q
                    < old(self).cache@.len() && old(self).cache@[q] == self.cache@[q])
                    || field_sub_handles(arena.types@, fields@, t as int).contains(q) by {
                    if q < mid.cache@.len() && mid.cache@[q] == self.cache@[q] {
                        assert(mid.cache@[q] is Some);
                    } else {
                        assert(sub_handles(arena.types@, f as int).contains(q));
                    }
                }
            }
            match res {
                Ok(nm) => {
                    let ghost prev = names@;
                    names.push(nm);
                    proof {
                        assert(views(names@) =~= views(prev).push(names@.last()@));
                        let rest = field_names(arena.types@, fields@.skip(i as int + 1), t as int);
                        if rest is Ok {
                            assert(views(names@) + rest->Ok_0 =~= views(prev) + (seq![
                                names@.last()@,
                            ] + rest->Ok_0));
                        }
                        // Trace step: this field's additions, then the rest
                        // from the grown state.
                        let tr = emit_trace(arena.types@, f as int, mid.emitted@);
                        assert(self.emitted@ == mid.emitted@ + tr);
                        assert(!(name_of(arena.types@, f as int) is Err));
                        assert(fields_trace(arena.types@, fields@.skip(i as int), t as int, mid.emitted@)
                            == tr + fields_trace(
                            arena.types@,
                            fields@.skip(i as int + 1),
                            t as int,
                            mid.emitted@ + tr,
                        ));
                        assert(mid.emitted@ + (tr + fields_trace(
                            arena.types@,
                            fields@.skip(i as int + 1),
                            t as int,
                            self.emitted@,
                        )) =~= self.emitted@ + fields_trace(
                            arena.types@,
                            fields@.skip(i as int + 1),
                            t as int,
                            self.emitted@,
                        ));
                        // Key coverage step.
                        assert forall|sig: StructSig|
                            #[trigger] field_sub_sigs(arena.types@, fields@, t as int).contains(
                                sig,
                            ) implies field_sub_sigs(
                            arena.types@,
                            fields@.skip(i as int + 1),
                            t as int,
                        ).contains(sig) || self.emitted@.contains(sig) by {
                            if field_sub_sigs(arena.types@, fields@.skip(i as int), t as int).contains(
                                sig,
                            ) {
                                if sub_sigs(arena.types@, f as int).contains(sig) {
                                    assert(self.emitted@.contains(sig));
                                }
                            } else {
                                assert(mid.emitted@.contains(sig));
                                let w = choose|w: int|
                                    0 <= w < mid.emitted@.len() && mid.emitted@[w] == sig;
                                assert(self.emitted@[w] == sig);
                            }
                        }
                    }
                },
                Err(e) => {
                    proof {
                        let tr = emit_trace(arena.types@, f as int, mid.emitted@);
                        assert(name_of(arena.types@, f as int) is Err);
                        assert(fields_trace(arena.types@, fields@.skip(i as int), t as int, mid.emitted@)
                            == tr);
                        assert(self.emitted@ == mid.emitted@ + tr);
                    }
                    return Err(e);
                },
            }
            i = i + 1;
        }
        proof {
            assert(fields@.skip(n as int) =~= Seq::<usize>::empty());
            assert(views(names@) + Seq::<Seq<char>>::empty() =~= views(names@));
            assert(fields_trace(arena.types@, fields@.skip(n as int), t as int, self.emitted@)
                =~= Seq::<StructSig>::empty());
            assert(self.emitted@ + Seq::<StructSig>::empty() =~= self.emitted@);
            assert(field_sub_sigs(arena.types@, fields@.skip(n as int), t as int) =~= Set::<
                StructSig,
            >::empty());
        }
        Ok(names)
    }

    fn grow_cache(&mut self, arena: &TypeArena, target: usize)
        requires
            old(self).wf(arena),
            target <= arena.types@.len(),
        ensures
            final(self).wf(arena),
            final(self).cache@.len() >= target,
            final(self).cache@.len() >= old(self).cache@.len(),
            final(self).typedefs@ == old(self).typedefs@,
            final(self).emitted@ == old(self).emitted@,
            final(self).emitted_names@ == old(self).emitted_names@,
            forall|q: int|
                0 <= q < old(self).cache@.len() ==> final(self).cache@[q] == old(self).cache@[q],
            forall|q: int|
                old(self).cache@.len() <= q < final(self).cache@.len()
                    ==> final(self).cache@[q] is None,
    {
        while self.cache.len() < target
            invariant
                target <= arena.types@.len(),
                self.wf(arena),
                self.typedefs@ == old(self).typedefs@,
                self.emitted@ == old(self).emitted@,
                self.emitted_names@ == old(self).emitted_names@,
                self.cache@.len() >= old(self).cache@.len(),
                forall|q: int|
                    0 <= q < old(self).cache@.len() ==> self.cache@[q] == old(self).cache@[q],
                forall|q: int|
                    old(self).cache@.len() <= q < self.cache@.len() ==> self.cache@[q] is None,
            decreases target - self.cache@.len(),
        {
            self.cache.push(None);
        }
    }

    /// Records one struct declaration, deduplicated by generated name: a
    /// key already emitted changes nothing, a new key is appended once.
    fn note_struct(&mut self, arena: &TypeArena, names: &Vec<String>, alignment: u64, nm: &String)
        requires
            old(self).wf(arena),
            nm@ == struct_name(views(names@), alignment),
            forall|j: int|
                0 <= j < views(names@).len() ==> (#[trigger] views(names@)[j]).len() > 0,
        ensures
            final(self).wf(arena),
            final(self).cache@ == old(self).cache@,
            old(self).emitted@.is_prefix_of(final(self).emitted@),
            final(self).name_emitted(nm@),
            final(self).emitted@ == old(self).emitted@ + (if old(self).emitted@.contains(
                StructSig { field_names: views(names@), alignment },
            ) {
                Seq::<StructSig>::empty()
            } else {
                seq![StructSig { field_names: views(names@), alignment }]
            }),
            final(self).emitted@.contains(StructSig { field_names: views(names@), alignment }),
    {
        let ghost sig = StructSig { field_names: views(names@), alignment };
        let mut already = false;
        let m = self.emitted_names.len();
        let mut j: usize = 0;
        while j < m
            invariant
                j <= m,
                m == self.emitted_names@.len(),
                already == exists|q: int|
                    0 <= q < j && (#[trigger] self.emitted_names@[q])@ == nm@,
            decreases m - j,
        {
            if self.emitted_names[j].eq(nm) {
                already = true;
            }
            j = j + 1;
        }
        proof {
            // The name-level check decides key-level membership: names
            // determine keys injectively once field names are nonempty.
            if already {
                let q = choose|q: int|
                    0 <= q < self.emitted_names@.len() && (#[trigger] self.emitted_names@[q])@
                        == nm@;
                if self.emitted@[q] != sig {
                    assert(self.emitted_names@[q]@ == struct_name(
                        self.emitted@[q].field_names,
                        self.emitted@[q].alignment,
                    ));
                    lemma_struct_names_injective(
                        self.emitted@[q].field_names,
                        self.emitted@[q].alignment,
                        sig.field_names,
                        sig.alignment,
                    );
                }
                assert(self.emitted@.contains(sig));
            } else {
                if self.emitted@.contains(sig) {
                    let q = choose|q: int|
                        0 <= q < self.emitted@.len() && self.emitted@[q] == sig;
                    assert(self.emitted_names@[q]@ == struct_name(
                        sig.field_names,
                        sig.alignment,
                    ));
                }
                assert(!self.emitted@.contains(sig));
            }
        }
        if already {
            proof {
                assert(old(self).emitted@ =~= self.emitted@.subrange(
                    0,
                    old(self).emitted@.len() as int,
                ));
                assert(final(self).emitted@ =~= old(self).emitted@ + Seq::<StructSig>::empty());
            }
            return ;
        }
        let ghost before = *self;
        push_struct_decl(&mut self.typedefs, names, alignment, nm);
        self.emitted_names.push(nm.clone());
        proof {
            self.emitted@ = before.emitted@.push(sig);
            lemma_emission_step(before, *self, arena, sig, nm@);
            assert(final(self).emitted@ =~= old(self).emitted@ + seq![sig]);
        }
    }

    /// Writes the computed name into the cache and returns it.
    #[verifier::rlimit(100)]
    fn finish(&mut self, arena: &TypeArena, t: usize, name: String) -> (r: Result<
        String,
        CodegenError,
    >)
        requires
            old(self).wf(arena),
            t < old(self).cache@.len(),
            name_of(arena.types@, t as int) == Ok::<Seq<char>, CodegenError>(name@),
            arena.types@[t as int] is Struct ==> old(self).name_emitted(name@),
            forall|sig: StructSig|
                #[trigger] sub_sigs(arena.types@, t as int).contains(sig) ==> old(
                    self,
                ).emitted@.contains(sig),
        ensures
            final(self).wf(arena),
            final(self).cache@.len() == old(self).cache@.len(),
            final(self).emitted@ == old(self).emitted@,
            final(self).typedefs@ == old(self).typedefs@,
            final(self).emitted_names@ == old(self).emitted_names@,
            forall|q: int|
                0 <= q < old(self).cache@.len() && q != t ==> final(self).cache@[q] == old(
                    self,
                ).cache@[q],
            forall|q: int|
                0 <= q < final(self).cache@.len() && (#[trigger] final(self).cache@[q]) is Some
                    ==> final(self).cache@[q] == old(self).cache@[q] || q == t,
            r matches Ok(n) && n@ == name@,
            final(self).cache@[t as int] matches Some(m) && m@ == name@,
    {
        let ghost pre_set = *self;
        self.cache.set(t, Some(name.clone()));
        proof {
            assert forall|q: int| 0 <= q < self.cache@.len() implies ((
            #[trigger] self.cache@[q]) matches Some(n) ==> entry_ok(arena.types@, q, n@) && (
            arena.types@[q] is Struct ==> self.name_emitted(n@))) by {
                if q != t {
                    assert(self.cache@[q] == pre_set.cache@[q]);
                    if self.cache@[q] is Some && arena.types@[q] is Struct {
                        let nv = self.cache@[q]->0@;
                        assert(pre_set.name_emitted(nv));
                        let w = choose|w: int|
                            0 <= w < pre_set.emitted_names@.len() && (
                            #[trigger] pre_set.emitted_names@[w])@ == nv;
                        assert(self.emitted_names@[w]@ == nv);
                        assert(self.name_emitted(nv));
                    }
                } else {
                    reveal(entry_ok);
                    assert(self.cache@[t as int] matches Some(n) && n@ == name@);
                    assert(entry_ok(arena.types@, t as int, name@));
                    if arena.types@[t as int] is Struct {
                        assert(self.emitted_names@ == pre_set.emitted_names@);
                        assert(pre_set.name_emitted(name@));
                        let w = choose|w: int|
                            0 <= w < pre_set.emitted_names@.len() && (
                            #[trigger] pre_set.emitted_names@[w])@ == name@;
                        assert(self.emitted_names@[w]@ == name@);
                    }
                }
            }
            assert forall|q: int, sig: StructSig|
                0 <= q < self.cache@.len() && (#[trigger] self.cache@[q]) is Some
                    && #[trigger] sub_sigs(arena.types@, q).contains(
                    sig,
                ) implies self.emitted@.contains(sig) by {
                if q != t {
                    assert(self.cache@[q] == pre_set.cache@[q]);
                }
            }
        }
        Ok(name)
    }

    /// Canonicalizes descriptor `t` into its target type name, memoized by
    /// descriptor identity and idempotent: a repeated call returns the same
    /// name and changes nothing. The emitted declarations grow by exactly
    /// `emit_trace`: the struct content keys newly resolved during this
    /// call, in resolution order, nested types before their containers,
    /// each distinct key at most once; every other descriptor kind, and a
    /// directly failing one, leaves the generated text unchanged.
    #[verifier::rlimit(100)]
    pub fn gen_type(&mut self, arena: &TypeArena, t: usize) -> (r: Result<String, CodegenError>)
        requires
            arena.wf(),
            t < arena.types@.len(),
            old(self).wf(arena),
        ensures
            final(self).wf(arena),
            match r {
                Ok(n) => name_of(arena.types@, t as int) == Ok::<Seq<char>, CodegenError>(n@) && t
                    < final(self).cache@.len() && (final(self).cache@[t as int] matches Some(m)
                    && m@ == n@),
                Err(e) => name_of(arena.types@, t as int) == Err::<Seq<char>, CodegenError>(e),
            },
            final(self).emitted@ == old(self).emitted@ + emit_trace(
                arena.types@,
                t as int,
                old(self).emitted@,
            ),
            old(self).emitted@.is_prefix_of(final(self).emitted@),
            r is Ok ==> forall|sig: StructSig|
                #[trigger] sub_sigs(arena.types@, t as int).contains(sig)
                    ==> final(self).emitted@.contains(sig),
            r is Err ==> (t < final(self).cache@.len() ==> final(self).cache@[t as int] is None),
            forall|q: int|
                0 <= q < final(self).cache@.len() && (#[trigger] final(self).cache@[q]) is Some
                    ==> (q < old(self).cache@.len() && old(self).cache@[q] == final(self).cache@[q])
                    || sub_handles(arena.types@, t as int).contains(q),
            final(self).cache@.len() >= old(self).cache@.len(),
            forall|q: int|
                0 <= q < old(self).cache@.len() && (#[trigger] old(self).cache@[q]) is Some
                    ==> final(self).cache@[q] == old(self).cache@[q],
            t < old(self).cache@.len() && old(self).cache@[t as int] is Some ==> final(self).cache@
                == old(self).cache@ && final(self).typedefs@ == old(self).typedefs@
                && final(self).emitted@ == old(self).emitted@,
        decreases t, 1int,
    {
        proof {
            assert(old(self).emitted@ =~= old(self).emitted@.subrange(
                0,
                old(self).emitted@.len() as int,
            ));
        }
        if t < self.cache.len() {
            let cached = &self.cache[t];
            if let Some(n) = cached {
                proof {
                    reveal(entry_ok);
                    assert forall|sig: StructSig|
                        #[trigger] sub_sigs(arena.types@, t as int).contains(
                            sig,
                        ) implies self.emitted@.contains(sig) by {
                        assert(self.cache@[t as int] is Some);
                    }
                    lemma_trace_empty(arena.types@, t as int, self.emitted@);
                    assert(self.emitted@ + emit_trace(arena.types@, t as int, self.emitted@)
                        =~= self.emitted@);
                }
                return Ok(n.clone());
            }
        }
        self.grow_cache(arena, arena.types.len());
        let ghost grown = *self;
        proof {
            assert(grown.emitted@ == old(self).emitted@);
            assert(t < self.cache@.len() && self.cache@[t as int] is None);
        }
        if let Some(leaf) = gen_leaf(arena, t) {
            proof {
                assert(emit_trace(arena.types@, t as int, old(self).emitted@) =~= Seq::<
                    StructSig,
                >::empty());
                assert(old(self).emitted@ + emit_trace(arena.types@, t as int, old(self).emitted@)
                    =~= old(self).emitted@);
                assert(sub_sigs(arena.types@, t as int) =~= Set::<StructSig>::empty());
                assert(sub_handles(arena.types@, t as int).contains(t as int));
            }
            match leaf {
                Ok(n) => {
                    return self.finish(arena, t, n);
                },
                Err(e) => {
                    return Err(e);
                },
            }
        }
        match &arena.types[t] {
            TypeDesc::Array { elem, len } => {
                let e = *elem;
                let l = *len;
                proof {
                    assert(arena.wf_at(t as int));
                    assert(emit_trace(arena.types@, t as int, old(self).emitted@) == emit_trace(
                        arena.types@,
                        e as int,
                        old(self).emitted@,
                    ));
                    assert(sub_sigs(arena.types@, t as int) == sub_sigs(arena.types@, e as int));
                }
                let res = self.gen_type(arena, e);
                proof {
                    lemma_sig_prefix_trans(old(self).emitted@, grown.emitted@, self.emitted@);
                    lemma_sub_handles_bounded(arena.types@, e as int);
                    assert forall|q: int|
                        0 <= q < self.cache@.len() && (#[trigger] self.cache@[q])
                            is Some implies (q < old(self).cache@.len() && old(self).cache@[q]
                        == self.cache@[q]) || sub_handles(arena.types@, t as int).contains(q) by {
                        if !(q < grown.cache@.len() && grown.cache@[q] == self.cache@[q]) {
                            assert(sub_handles(arena.types@, e as int).contains(q));
                        } else {
                            if !(q < old(self).cache@.len() && old(self).cache@[q] == self.cache@[q]
                                && old(self).cache@[q] is Some) {
                                if grown.cache@[q] is Some {
                                    assert(old(self).cache@[q] == grown.cache@[q]);
                                } else {
                                    assert(false);
                                }
                            }
                        }
                    }
                    assert(t < self.cache@.len() && self.cache@[t as int] is None) by {
                        if self.cache@[t as int] is Some {
                            if !(t < grown.cache@.len() && grown.cache@[t as int] == self.cache@[t as int]) {
                                assert(sub_handles(arena.types@, e as int).contains(t as int));
                                assert(false);
                            }
                        }
                    }
                }
                let en = match res {
                    Ok(n) => n,
                    Err(err) => {
                        proof {
                            assert(name_of(arena.types@, t as int) == Err::<
                                Seq<char>,
                                CodegenError,
                            >(err));
                        }
                        return Err(err);
                    },
                };
                let s = build_array_name(&en, l);
                proof {
                    assert(name_of(arena.types@, t as int) == Ok::<Seq<char>, CodegenError>(s@));
                }
                self.finish(arena, t, s)
            },
            TypeDesc::Struct { fields, alignment } => {
                let al = *alignment;
                proof {
                    assert(arena.wf_at(t as int));
                }
                let res = self.gen_struct_fields(arena, t, fields);
                proof {
                    lemma_sig_prefix_trans(old(self).emitted@, grown.emitted@, self.emitted@);
                    lemma_field_sub_handles_bounded(arena.types@, fields@, t as int);
                    assert forall|q: int|
                        0 <= q < self.cache@.len() && (#[trigger] self.cache@[q])
                            is Some implies (q < old(self).cache@.len() && old(self).cache@[q]
                        == self.cache@[q]) || sub_handles(arena.types@, t as int).contains(q) by {
                        if !(q < grown.cache@.len() && grown.cache@[q] == self.cache@[q]
                            && grown.cache@[q] is Some) {
                            if q < grown.cache@.len() && grown.cache@[q] == self.cache@[q] {
                                assert(false);
                            } else {
                                assert(field_sub_handles(arena.types@, fields@, t as int).contains(
                                    q,
                                ));
                            }
                        } else {
                            if !(q < old(self).cache@.len() && old(self).cache@[q]
                                == self.cache@[q] && old(self).cache@[q] is Some) {
                                assert(old(self).cache@[q] == grown.cache@[q]);
                            }
                        }
                    }
                    assert(t < self.cache@.len() && self.cache@[t as int] is None) by {
                        if self.cache@[t as int] is Some {
                            if !(t < grown.cache@.len() && grown.cache@[t as int] == self.cache@[t as int]) {
                                assert(field_sub_handles(arena.types@, fields@, t as int).contains(
                                    t as int,
                                ));
                                assert(false);
                            }
                        }
                    }
                }
                let names = match res {
                    Ok(ns) => ns,
                    Err(err) => {
                        proof {
                            assert(name_of(arena.types@, t as int) == Err::<
                                Seq<char>,
                                CodegenError,
                            >(err));
                            assert(emit_trace(arena.types@, t as int, old(self).emitted@)
                                == fields_trace(
                                arena.types@,
                                fields@,
                                t as int,
                                old(self).emitted@,
                            ));
                        }
                        return Err(err);
                    },
                };
                let ghost fielded = *self;
                let nm = build_struct_name(&names, al);
                proof {
                    assert(name_of(arena.types@, t as int) == Ok::<Seq<char>, CodegenError>(nm@));
                    lemma_field_names_nonempty(arena.types@, fields@, t as int, views(names@));
                }
                self.note_struct(arena, &names, al, &nm);
                proof {
                    lemma_sig_prefix_trans(grown.emitted@, fielded.emitted@, self.emitted@);
                    lemma_sig_prefix_trans(old(self).emitted@, grown.emitted@, self.emitted@);
                    let ghost sig = StructSig { field_names: views(names@), alignment: al };
                    let ghost pre = fields_trace(arena.types@, fields@, t as int, old(self).emitted@);
                    assert(fielded.emitted@ == old(self).emitted@ + pre);
                    assert(emit_trace(arena.types@, t as int, old(self).emitted@) == (if (old(
                        self,
                    ).emitted@ + pre).contains(sig) {
                        pre
                    } else {
                        pre.push(sig)
                    }));
                    if fielded.emitted@.contains(sig) {
                        assert(self.emitted@ =~= old(self).emitted@ + pre);
                        assert(self.emitted@ =~= old(self).emitted@ + emit_trace(
                            arena.types@,
                            t as int,
                            old(self).emitted@,
                        ));
                    } else {
                        assert(self.emitted@ =~= (old(self).emitted@ + pre) + seq![sig]);
                        assert(self.emitted@ =~= old(self).emitted@ + pre.push(sig));
                        assert(self.emitted@ =~= old(self).emitted@ + emit_trace(
                            arena.types@,
                            t as int,
                            old(self).emitted@,
                        ));
                    }
                    // Key coverage: the fields' keys and the own key.
                    assert forall|sg: StructSig|
                        #[trigger] sub_sigs(arena.types@, t as int).contains(
                            sg,
                        ) implies self.emitted@.contains(sg) by {
                        if field_sub_sigs(arena.types@, fields@, t as int).contains(sg) {
                            assert(fielded.emitted@.contains(sg));
                            let w = choose|w: int|
                                0 <= w < fielded.emitted@.len() && fielded.emitted@[w] == sg;
                            assert(self.emitted@[w] == sg);
                        } else {
                            assert(sg == sig);
                            assert(self.emitted@.contains(sig));
                        }
                    }
                }
                self.finish(arena, t, nm)
            },
            _ => {
                proof {
                    assert(false);
                }
                Err(CodegenError::UnrecognizedType)
            },
        }
    }
}

/// Resolves the descriptors that need no recursion: everything but arrays
/// and structs.
fn gen_leaf(arena: &TypeArena, t: usize) -> (r: Option<Result<String, CodegenError>>)
    requires
        t < arena.types@.len(),
    ensures
        match r {
            Some(res) => !(arena.types@[t as int] is Array) && !(arena.types@[t as int] is Struct)
                && match res {
                Ok(n) => name_of(arena.types@, t as int) == Ok::<Seq<char>, CodegenError>(n@),
                Err(e) => name_of(arena.types@, t as int) == Err::<Seq<char>, CodegenError>(e),
            },
            None => arena.types@[t as int] is Array || arena.types@[t as int] is Struct,
        },
{
    match &arena.types[t] {
        TypeDesc::Void => Some(Ok("void".to_owned())),
        TypeDesc::Scalar { kind } => Some(Ok(scalar_str(*kind).to_owned())),
        TypeDesc::Vector { kind, dim } => Some(Ok(build_vector_name(*kind, *dim))),
        TypeDesc::Matrix { kind, dim } => {
            if *kind == ScalarKind::Float32 {
                Some(Ok(build_matrix_name(*dim)))
            } else {
                Some(Err(CodegenError::UnsupportedKind))
            }
        },
        TypeDesc::Opaque => Some(Err(CodegenError::UnrecognizedType)),
        TypeDesc::Array { elem, len } => None,
        TypeDesc::Struct { fields, alignment } => None,
    }
}

fn build_vector_name(kind: ScalarKind, dim: u32) -> (s: String)
    ensures
        s@ == vector_name(kind, dim),
{
    let mut s = vector_prefix_str(kind).to_owned();
    let d = dec_u64(dim as u64);
    s.append(d.as_str());
    proof {
        assert(s@ =~= vector_name(kind, dim));
    }
    s
}

fn build_matrix_name(dim: u32) -> (s: String)
    ensures
        s@ == matrix_name(dim),
{
    let mut s = "lc_float".to_owned();
    let d = dec_u64(dim as u64);
    s.append(d.as_str());
    s.append("x");
    s.append(d.as_str());
    proof {
        assert(s@ =~= matrix_name(dim));
    }
    s
}

fn build_array_name(elem: &String, len: u64) -> (s: String)
    ensures
        s@ == array_name(elem@, len),
{
    let mut s = "lc_array<".to_owned();
    s.append(elem.as_str());
    s.append(", ");
    let d = dec_u64(len);
    s.append(d.as_str());
    s.append(">");
    proof {
        assert(s@ =~= array_name(elem@, len));
    }
    s
}

fn build_struct_name(names: &Vec<String>, alignment: u64) -> (s: String)
    ensures
        s@ == struct_name(views(names@), alignment),
{
    let mut nm = "s_".to_owned();
    let k = names.len();
    let mut i: usize = 0;
    proof {
        assert(hex_parts(views(names@)).take(0) =~= Seq::<Seq<char>>::empty());
        assert(nm@ =~= "s_"@ + pre_join(hex_parts(views(names@)).take(0)));
    }
    while i < k
        invariant
            i <= k,
            k == names@.len(),
            nm@ == "s_"@ + pre_join(hex_parts(views(names@)).take(i as int)),
        decreases k - i,
    {
        push_hex_chars(&mut nm, names[i].as_str());
        nm.append("_");
        proof {
            reveal_strlit("_");
            let hp = hex_parts(views(names@));
            assert(hp.take(i as int + 1).drop_last() =~= hp.take(i as int));
            assert(hp.take(i as int + 1).last() == hex_chars(names@[i as int]@));
            assert("_"@ =~= seq!['_']);
            assert(nm@ =~= "s_"@ + pre_join(hp.take(i as int + 1)));
        }
        i = i + 1;
    }
    let d = dec_u64(alignment);
    nm.append(d.as_str());
    proof {
        let hp = hex_parts(views(names@));
        assert(hp.take(k as int) =~= hp);
        lemma_join_push(hp, dec_digits(alignment as nat));
        assert(nm@ =~= struct_name(views(names@), alignment));
    }
    nm
}

} // verus!
