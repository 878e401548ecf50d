use openvaf::llvm::{get_version, CallConv, CodeGenFileType, DiagnosticSeverity, IntPredicate, OptLevel, RelocMode, TypeKind};

#[test]
fn default_version() {
    assert_eq!(get_version(None, None, None), Some((14, 0, 6)));
}

#[test]
fn recorded_version() {
    assert_eq!(get_version(Some(b"15"), Some(b"+0"), Some(b"7")), Some((15, 0, 7)));
    assert_eq!(get_version(Some(b"4294967295"), None, None), Some((u32::MAX, 0, 6)));
}

#[test]
fn bad_version() {
    assert_eq!(get_version(Some(b"x"), None, None), None);
    assert_eq!(get_version(None, Some(b""), None), None);
    assert_eq!(get_version(None, None, Some(b"+")), None);
    assert_eq!(get_version(Some(b"4294967296"), None, None), None);
    assert_eq!(get_version(Some(b"-1"), None, None), None);
}

#[test]
fn raw_values() {
    assert_eq!(OptLevel::Aggressive.to_raw(), 3);
    assert_eq!(OptLevel::NoOpt.to_raw(), 0);
    assert_eq!(RelocMode::PIC.to_raw(), 2);
    assert_eq!(CodeGenFileType::ObjectFile.to_raw(), 1);
    assert_eq!(CallConv::ColdCallConv.to_raw(), 9);
    assert_eq!(IntPredicate::IntEQ.to_raw(), 32);
    assert_eq!(IntPredicate::IntSLE.to_raw(), 41);
    assert_eq!(TypeKind::from_raw(8), Some(TypeKind::Integer));
    assert_eq!(TypeKind::from_raw(20), None);
    assert_eq!(DiagnosticSeverity::from_raw(1), Some(DiagnosticSeverity::Warning));
    assert_eq!(DiagnosticSeverity::from_raw(4), None);
}
