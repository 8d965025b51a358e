use neyuki::diagnostics::{render_report, Diagnostic, ErrorCode, Span};

#[test]
fn test_diagnostic_rendering() {
    let source = "local a = 10\nreturn a + b\n";
    let diag = Diagnostic::error("cannot find value 'b' in this scope")
        .with_code(ErrorCode::E0001)
        .with_label(Span::single_line(2, 12, 13), "not found in this scope")
        .with_help("declare 'local b = ...' before accessing it");

    let report = render_report("test.nyk", source, &[diag]);
    assert!(report.contains("error[E0001]: cannot find value 'b' in this scope"));
    assert!(report.contains("--> test.nyk:2:12"));
    assert!(report.contains("return a + b"));
    assert!(report.contains("^ not found in this scope"));
    assert!(report.contains("= help: declare 'local b = ...' before accessing it"));
}

#[test]
fn every_code_has_its_own_text() {
    let codes = [
        ErrorCode::E0001, ErrorCode::E0002, ErrorCode::E0003, ErrorCode::E0004, ErrorCode::E0005,
        ErrorCode::E0050, ErrorCode::E0051, ErrorCode::E0052, ErrorCode::E0100, ErrorCode::E0101,
        ErrorCode::E0102, ErrorCode::E0103, ErrorCode::E0200, ErrorCode::E0201, ErrorCode::W0001,
        ErrorCode::W0002, ErrorCode::W0003, ErrorCode::W0004, ErrorCode::W0005,
    ];
    for (i, a) in codes.iter().enumerate() {
        for (j, b) in codes.iter().enumerate() {
            assert_eq!(i == j, a.as_str() == b.as_str());
        }
    }
    assert_eq!(ErrorCode::W0003.as_str(), "W0003");
}
