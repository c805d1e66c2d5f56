//! Presentation tiers.

use windydec::structure::presentation::{apply_cfg_only, apply_legacy_semantic};


#[test]
fn cfg_only_does_not_invent_e_pointer() {
    let src = r#"uint64 FUN_x(u64 arg1) {
 if ((arg1 == 0)) {
  return 0;
 }
 return 1;
}
"#;
    let cfg = apply_cfg_only(src);
    assert!(
        !cfg.contains("80004003"),
        "CfgOnly must not invent E_POINTER:\n{cfg}"
    );
    let leg = apply_legacy_semantic(&cfg);
    // Legacy may or may not fire depending on shape; if it does, that's fine.
    let _ = leg;
}

#[test]
fn cfg_only_does_not_wrap_pure_op_return() {
    let src = "uint64 FUN_x() {\n return (a ^ b);\n}\n";
    let cfg = apply_cfg_only(src);
    assert!(
        !cfg.contains("if (") && !cfg.contains("if("),
        "CfgOnly must not wrap pure-op returns:\n{cfg}"
    );
    let leg = apply_legacy_semantic(&cfg);
    assert!(
        leg.contains("if (") || leg.contains("if("),
        "LegacySemantic must wrap pure-op returns:\n{leg}"
    );
}
