//! The LLVM-C vocabulary that the code generator speaks: opaque handles for LLVM's
//! objects, the C enumerations with their numeric values, and the version of LLVM that
//! the build was made against.
use vstd::prelude::*;

verus! {

/// An LLVM pass manager (only ever handled by reference).
pub struct PassManager {
    _data: (),
}

/// An LLVM diagnostic (only ever handled by reference).
pub struct DiagnosticInfo {
    _data: (),
}

/// An LLVM module (only ever handled by reference).
pub struct Module {
    _data: (),
}

/// An LLVM memory buffer (only ever handled by reference).
pub struct MemoryBuffer {
    _data: (),
}

/// An LLVM basic block (only ever handled by reference).
pub struct BasicBlock {
    _data: (),
}

/// An LLVM type (only ever handled by reference).
pub struct Type {
    _data: (),
}

/// An LLVM value (only ever handled by reference).
pub struct Value {
    _data: (),
}

/// An LLVM attribute (only ever handled by reference).
pub struct Attribute {
    _data: (),
}

/// The LLVM pass registry (only ever handled by reference).
pub struct PassRegistry {
    _data: (),
}

/// An LLVM pass manager builder (only ever handled by reference).
pub struct PassManagerBuilder {
    _data: (),
}

/// An LLVM target (only ever handled by reference).
pub struct Target {
    _data: (),
}

/// The data layout of an LLVM target (only ever handled by reference).
pub struct TargetData {
    _data: (),
}

/// An LLVM target machine (only ever handled by reference).
pub struct TargetMachine {
    _data: (),
}

/// The optimisation level of code generation.
#[derive(Clone, Copy, Debug, PartialEq, Eq, Structural)]
pub enum OptLevel {
    /// No optimisation (`LLVMCodeGenLevelNone`).
    NoOpt,
    Less,
    Default,
    Aggressive,
}

impl OptLevel {
    /// The `LLVMCodeGenOptLevel` value.
    pub fn to_raw(self) -> (r: u32)
        ensures
            r == match self {
                OptLevel::NoOpt => 0u32,
                OptLevel::Less => 1,
                OptLevel::Default => 2,
                OptLevel::Aggressive => 3,
            },
    {
        match self {
            OptLevel::NoOpt => 0,
            OptLevel::Less => 1,
            OptLevel::Default => 2,
            OptLevel::Aggressive => 3,
        }
    }
}

/// The relocation model (only the default and position independent code are used).
#[derive(Clone, Copy, Debug, PartialEq, Eq, Structural)]
pub enum RelocMode {
    Default,
    PIC,
}

impl RelocMode {
    /// The `LLVMRelocMode` value.
    pub fn to_raw(self) -> (r: u32)
        ensures
            r == match self {
                RelocMode::Default => 0u32,
                RelocMode::PIC => 2,
            },
    {
        match self {
            RelocMode::Default => 0,
            RelocMode::PIC => 2,
        }
    }
}

/// The code model (only the default is used).
#[derive(Clone, Copy, Debug, PartialEq, Eq, Structural)]
pub enum CodeModel {
    Default,
}

impl CodeModel {
    /// The `LLVMCodeModel` value.
    pub fn to_raw(self) -> (r: u32)
        ensures
            r == 0,
    {
        0
    }
}

/// What the code generator emits.
#[derive(Clone, Copy, Debug, PartialEq, Eq, Structural)]
pub enum CodeGenFileType {
    AssemblyFile,
    ObjectFile,
}

impl CodeGenFileType {
    /// The `LLVMCodeGenFileType` value.
    pub fn to_raw(self) -> (r: u32)
        ensures
            r == match self {
                CodeGenFileType::AssemblyFile => 0u32,
                CodeGenFileType::ObjectFile => 1,
            },
    {
        match self {
            CodeGenFileType::AssemblyFile => 0,
            CodeGenFileType::ObjectFile => 1,
        }
    }
}

/// The kinds of LLVM types, in the order of `LLVMTypeKind`.
#[allow(non_camel_case_types)]
#[derive(Clone, Copy, Debug, PartialEq, Eq, Structural)]
pub enum TypeKind {
    Void,
    Half,
    Float,
    Double,
    X86_FP80,
    FP128,
    PPC_FP128,
    Label,
    Integer,
    Function,
    Struct,
    Array,
    Pointer,
    Vector,
    Metadata,
    X86_MMX,
    Token,
    ScalableVector,
    BFloat,
    X86_AMX,
}

/// The `LLVMTypeKind` value of each kind.
pub open spec fn type_kind_raw(k: TypeKind) -> u32 {
    match k {
        TypeKind::Void => 0,
        TypeKind::Half => 1,
        TypeKind::Float => 2,
        TypeKind::Double => 3,
        TypeKind::X86_FP80 => 4,
        TypeKind::FP128 => 5,
        TypeKind::PPC_FP128 => 6,
        TypeKind::Label => 7,
        TypeKind::Integer => 8,
        TypeKind::Function => 9,
        TypeKind::Struct => 10,
        TypeKind::Array => 11,
        TypeKind::Pointer => 12,
        TypeKind::Vector => 13,
        TypeKind::Metadata => 14,
        TypeKind::X86_MMX => 15,
        TypeKind::Token => 16,
        TypeKind::ScalableVector => 17,
        TypeKind::BFloat => 18,
        TypeKind::X86_AMX => 19,
    }
}

impl TypeKind {
    /// The kind with the given `LLVMTypeKind` value, as LLVM reports it.
    pub fn from_raw(raw: u32) -> (r: Option<TypeKind>)
        ensures
            r matches Some(k) ==> type_kind_raw(k) == raw,
            r is None <==> raw > 19,
    {
        match raw {
            0 => Some(TypeKind::Void),
            1 => Some(TypeKind::Half),
            2 => Some(TypeKind::Float),
            3 => Some(TypeKind::Double),
            4 => Some(TypeKind::X86_FP80),
            5 => Some(TypeKind::FP128),
            6 => Some(TypeKind::PPC_FP128),
            7 => Some(TypeKind::Label),
            8 => Some(TypeKind::Integer),
            9 => Some(TypeKind::Function),
            10 => Some(TypeKind::Struct),
            11 => Some(TypeKind::Array),
            12 => Some(TypeKind::Pointer),
            13 => Some(TypeKind::Vector),
            14 => Some(TypeKind::Metadata),
            15 => Some(TypeKind::X86_MMX),
            16 => Some(TypeKind::Token),
            17 => Some(TypeKind::ScalableVector),
            18 => Some(TypeKind::BFloat),
            19 => Some(TypeKind::X86_AMX),
            _ => None,
        }
    }
}

/// The linkage of a global value, in the order of `LLVMLinkage`.
#[derive(Clone, Copy, Debug, PartialEq, Eq, Structural)]
pub enum Linkage {
    /// Externally visible (the default).
    ExternalLinkage,
    AvailableExternallyLinkage,
    /// Keep one copy of the function when linking (inline).
    LinkOnceAnyLinkage,
    /// The same, but only replaced by something equivalent.
    LinkOnceODRLinkage,
    LinkOnceODRAutoHideLinkage,
    /// Keep one copy of the function when linking (weak).
    WeakAnyLinkage,
    WeakODRLinkage,
    AppendingLinkage,
    /// Rename collisions when linking (static functions).
    Internal,
    /// Like `Internal`, but omitted from the symbol table.
    PrivateLinkage,
    DLLImportLinkage,
    DLLExportLinkage,
    ExternalWeakLinkage,
    GhostLinkage,
    CommonLinkage,
    LinkerPrivateLinkage,
    LinkerPrivateWeakLinkage,
}

/// The visibility of a global value.
#[derive(Clone, Copy, Debug, PartialEq, Eq, Structural)]
pub enum Visibility {
    Default,
    Hidden,
    Protected,
}

/// Whether the address of a global value is significant.
#[derive(Clone, Copy, Debug, PartialEq, Eq, Structural)]
pub enum UnnamedAddr {
    /// The address is significant.
    No,
    /// The address is locally insignificant.
    Local,
    /// The address is globally insignificant.
    Global,
}

/// The DLL storage class of a global value.
#[derive(Clone, Copy, Debug, PartialEq, Eq, Structural)]
pub enum DLLStorageClass {
    Default,
    Import,
    Export,
}

/// The calling conventions in use.
#[derive(Copy, Clone, PartialEq, Eq, Structural, Debug)]
pub enum CallConv {
    CCallConv,
    FastCallConv,
    ColdCallConv,
}

impl CallConv {
    /// The `CallingConv::ID` value.
    pub fn to_raw(self) -> (r: u32)
        ensures
            r == match self {
                CallConv::CCallConv => 0u32,
                CallConv::FastCallConv => 8,
                CallConv::ColdCallConv => 9,
            },
    {
        match self {
            CallConv::CCallConv => 0,
            CallConv::FastCallConv => 8,
            CallConv::ColdCallConv => 9,
        }
    }
}

/// The predicates of integer comparisons, in the order of `LLVMIntPredicate`.
#[derive(Clone, Copy, Debug, PartialEq, Eq, Structural)]
pub enum IntPredicate {
    IntEQ,
    IntNE,
    IntUGT,
    IntUGE,
    IntULT,
    IntULE,
    IntSGT,
    IntSGE,
    IntSLT,
    IntSLE,
}

impl IntPredicate {
    /// The `LLVMIntPredicate` value: they are numbered from 32 on.
    pub fn to_raw(self) -> (r: u32)
        ensures
            r == 32 + match self {
                IntPredicate::IntEQ => 0u32,
                IntPredicate::IntNE => 1,
                IntPredicate::IntUGT => 2,
                IntPredicate::IntUGE => 3,
                IntPredicate::IntULT => 4,
                IntPredicate::IntULE => 5,
                IntPredicate::IntSGT => 6,
                IntPredicate::IntSGE => 7,
                IntPredicate::IntSLT => 8,
                IntPredicate::IntSLE => 9,
            },
    {
        match self {
            IntPredicate::IntEQ => 32,
            IntPredicate::IntNE => 33,
            IntPredicate::IntUGT => 34,
            IntPredicate::IntUGE => 35,
            IntPredicate::IntULT => 36,
            IntPredicate::IntULE => 37,
            IntPredicate::IntSGT => 38,
            IntPredicate::IntSGE => 39,
            IntPredicate::IntSLT => 40,
            IntPredicate::IntSLE => 41,
        }
    }
}

/// The predicates of real comparisons, in the order of `LLVMRealPredicate`.
#[derive(Clone, Copy, Debug, PartialEq, Eq, Structural)]
pub enum RealPredicate {
    RealPredicateFalse,
    RealOEQ,
    RealOGT,
    RealOGE,
    RealOLT,
    RealOLE,
    RealONE,
    RealORD,
    RealUNO,
    RealUEQ,
    RealUGT,
    RealUGE,
    RealULT,
    RealULE,
    RealUNE,
    RealPredicateTrue,
}

/// The severity of an LLVM diagnostic.
#[derive(Clone, Copy, Debug, PartialEq, Eq, Structural)]
pub enum DiagnosticSeverity {
    Error,
    Warning,
    Remark,
    Note,
}

impl DiagnosticSeverity {
    /// The severity with the given `LLVMDiagnosticSeverity` value.
    pub fn from_raw(raw: u32) -> (r: Option<DiagnosticSeverity>)
        ensures
            r == match raw {
                0 => Some(DiagnosticSeverity::Error),
                1 => Some(DiagnosticSeverity::Warning),
                2 => Some(DiagnosticSeverity::Remark),
                3 => Some(DiagnosticSeverity::Note),
                _ => None::<DiagnosticSeverity>,
            },
    {
        match raw {
            0 => Some(DiagnosticSeverity::Error),
            1 => Some(DiagnosticSeverity::Warning),
            2 => Some(DiagnosticSeverity::Remark),
            3 => Some(DiagnosticSeverity::Note),
            _ => None,
        }
    }
}

/// The bytes are all decimal digits.
pub open spec fn all_digits(s: Seq<u8>) -> bool {
    forall|i: int| 0 <= i < s.len() ==> 48 <= #[trigger] s[i] <= 57
}

/// The number that the decimal digits `s` write.
pub open spec fn digits_value(s: Seq<u8>) -> int
    decreases s.len(),
{
    if s.len() == 0 {
        0
    } else {
        digits_value(s.drop_last()) * 10 + (s.last() - 48)
    }
}

/// The digits of a decimal number with an optional leading `+`.
pub open spec fn unsigned_digits(s: Seq<u8>) -> Seq<u8> {
    if s.len() > 0 && s[0] == 43 {
        s.drop_first()
    } else {
        s
    }
}

/// What parsing `s` as a `u32` gives: an optional `+` and at least one digit, with a
/// value that fits.
pub open spec fn parse_u32(s: Seq<u8>) -> Option<u32> {
    let d = unsigned_digits(s);
    if d.len() > 0 && all_digits(d) && digits_value(d) <= u32::MAX {
        Some(digits_value(d) as u32)
    } else {
        None
    }
}

proof fn lemma_digits_value_nonneg(s: Seq<u8>)
    requires
        all_digits(s),
    ensures
        digits_value(s) >= 0,
    decreases s.len(),
{
    if s.len() > 0 {
        assert(all_digits(s.drop_last()));
        lemma_digits_value_nonneg(s.drop_last());
    }
}

/// Parse a decimal `u32` the way `str::parse` does.
fn parse_version_number(s: &[u8]) -> (r: Option<u32>)
    ensures
        r == parse_u32(s@),
{
    let mut i: usize = 0;
    if s.len() > 0 && s[0] == 43 {
        i = 1;
    }
    let ghost d = unsigned_digits(s@);
    proof {
        assert(d =~= s@.subrange(i as int, s@.len() as int));
    }
    if i == s.len() {
        return None;
    }
    let start = i;
    // The value read so far, capped at `u32::MAX + 1`.
    let mut acc: u64 = 0;
    while i < s.len()
        invariant
            start <= i <= s@.len(),
            start < s@.len(),
            d =~= s@.subrange(start as int, s@.len() as int),
            d == unsigned_digits(s@),
            all_digits(s@.subrange(start as int, i as int)),
            acc == (if digits_value(s@.subrange(start as int, i as int)) <= u32::MAX {
                digits_value(s@.subrange(start as int, i as int))
            } else {
                u32::MAX + 1
            }),
        decreases s@.len() - i,
    {
        let b = s[i];
        let ghost pre = s@.subrange(start as int, i as int);
        let ghost next = s@.subrange(start as int, i + 1);
        proof {
            assert(next.drop_last() =~= pre);
            assert(next.last() == b);
            lemma_digits_value_nonneg(pre);
        }
        if b < 48 || b > 57 {
            proof {
                assert(d[i - start] == b);
                assert(!all_digits(d));
            }
            return None;
        }
        proof {
            assert(all_digits(next)) by {
                assert forall|k: int| 0 <= k < next.len() implies 48 <= #[trigger] next[k] <= 57 by {
                    if k < pre.len() {
                        assert(next[k] == pre[k]);
                    }
                }
            }
        }
        if acc <= 0xffff_ffff {
            acc = acc * 10 + (b - 48) as u64;
            if acc > 0xffff_ffff {
                acc = 0x1_0000_0000;
            }
        }
        i += 1;
    }
    proof {
        assert(s@.subrange(start as int, i as int) =~= d);
    }
    if acc <= 0xffff_ffff {
        Some(acc as u32)
    } else {
        None
    }
}

/// What one component of the version is: `default` where the build did not say,
/// otherwise the decimal number it gave.
pub open spec fn version_component(s: Option<Seq<u8>>, default: u32) -> Option<u32> {
    match s {
        None => Some(default),
        Some(t) => parse_u32(t),
    }
}

fn version_component_of(s: Option<&[u8]>, default: u32) -> (r: Option<u32>)
    ensures
        r == version_component(
            match s {
                Some(t) => Some(t@),
                None => None,
            },
            default,
        ),
{
    match s {
        None => Some(default),
        Some(t) => parse_version_number(t),
    }
}

/// The LLVM version (major, minor, patch) from the numbers the build recorded; where the
/// build recorded none, 14.0.6. `None` if a recorded number is not a decimal `u32`.
pub fn get_version(major: Option<&[u8]>, minor: Option<&[u8]>, patch: Option<&[u8]>) -> (r: Option<(u32, u32, u32)>)
    ensures
        ({
            let a = version_component(
                match major {
                    Some(t) => Some(t@),
                    None => None,
                },
                14,
            );
            let b = version_component(
                match minor {
                    Some(t) => Some(t@),
                    None => None,
                },
                0,
            );
            let c = version_component(
                match patch {
                    Some(t) => Some(t@),
                    None => None,
                },
                6,
            );
            r == (if a is Some && b is Some && c is Some {
                Some((a.unwrap(), b.unwrap(), c.unwrap()))
            } else {
                None::<(u32, u32, u32)>
            })
        }),
{
    let a = version_component_of(major, 14);
    let b = version_component_of(minor, 0);
    let c = version_component_of(patch, 6);
    match (a, b, c) {
        (Some(x), Some(y), Some(z)) => Some((x, y, z)),
        _ => None,
    }
}

} // verus!
