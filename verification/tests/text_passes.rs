//! The passes over printed text, one by one.

use windydec::structure::polish::{flags, guards, hresult, keywords, resources, values};
use windydec::structure::{gotos, ladder, noise, apply_presentation, legacy_polish_pipeline, PresentationTier};
use windydec::structure::emit::{legacy_semantic_polish, structure_presentation_pipeline};
use windydec::structure::presentation::{apply_cfg_only, apply_legacy_semantic};
use windydec::text::{chars_of, string_of};

fn run(pass: fn(&Vec<char>) -> Vec<char>, src: &str) -> String {
    string_of(&pass(&chars_of(src)))
}

#[test]
fn tiers_compose() {
    let src = "uint64 f() {\n return (a ^ b);\n}\n";
    let cfg = apply_presentation(src, PresentationTier::CfgOnly);
    assert_eq!(cfg, apply_cfg_only(src));
    assert_eq!(cfg, structure_presentation_pipeline(src));
    let full = apply_presentation(src, PresentationTier::LegacySemantic);
    assert_eq!(full, apply_legacy_semantic(&cfg));
    assert_eq!(full, legacy_semantic_polish(&cfg));
    assert_eq!(full, legacy_polish_pipeline(src));
    assert_eq!(
        full,
        "uint64 f() {\n if (((a ^ b)) == ((a ^ b))) {\n  return (a ^ b);\n } else {\n  return (a ^ b);\n }\n}\n"
    );
}

#[test]
fn empty_text_stays_empty() {
    assert_eq!(apply_legacy_semantic(""), "");
    assert_eq!(run(ladder::fold_eq_ladder_to_switch, ""), "");
    assert_eq!(run(values::polish_zero_returns, ""), "");
}

#[test]
fn operations_get_a_branch() {
    assert_eq!(
        run(values::polish_pure_op_return_to_if, "  return a & b;"),
        "  if ((a & b) == (a & b)) {\n   return a & b;\n  } else {\n   return a & b;\n  }"
    );
    // A text that branches, or returns twice, or returns a plain value, stays.
    for src in ["if (c) x;\nreturn a & b;\n", "return a & b;\nreturn a | b;\n", "return a;\n"] {
        assert_eq!(run(values::polish_pure_op_return_to_if, src), src);
    }
}

#[test]
fn long_operations_stay() {
    let long = format!("return {};\n", "a ^ ".repeat(29) + "bbbb");
    assert_eq!(run(values::polish_pure_op_return_to_if, &long), long);
    let short = format!("return {};\n", "a ^ ".repeat(29) + "bbb");
    assert!(run(values::polish_pure_op_return_to_if, &short).starts_with("if (("));
}

#[test]
fn comparisons_become_branches() {
    assert_eq!(
        run(values::polish_compare_return_to_if, "return (a < b);\n"),
        "if ((a < b)) {\n return 1;\n} else {\n return 0;\n}\n"
    );
    assert_eq!(run(values::polish_compare_return_to_if, "return (a << b);\n"), "return (a << b);\n");
    assert_eq!(run(values::polish_compare_return_to_if, "return (a ^ b) < c;\n"), "return (a ^ b) < c;\n");
}

#[test]
fn zeros_are_written_plainly() {
    assert_eq!(run(values::polish_zero_returns, " return rax ^ rax;\n"), " return 0;\n");
    assert_eq!(run(values::polish_zero_returns, "return (a*0x0);"), "return 0;\n");
    assert_eq!(run(values::polish_zero_returns, "return ;"), "return 0;\n");
    assert_eq!(run(values::polish_zero_returns, "return FUN_1(0*x);"), "return FUN_1(0*x);\n");
    assert_eq!(run(values::polish_zero_returns, "return a ^ b;"), "return a ^ b;\n");
}

#[test]
fn checksums_get_their_running_value_back() {
    assert_eq!(
        run(values::polish_crc_xor_return, "u64 f(u64 arg1) {\n return (arg2 * 0x4e67c6a7);\n}\n"),
        "u64 f(u64 arg1) {\n return ((u64)arg1 ^ (arg2 * 0x4e67c6a7));\n}\n"
    );
    assert_eq!(
        run(values::polish_crc_xor_return, "x = arg_8;\nreturn (*(arg_10) * 0x4e67c6a7);"),
        "x = arg_8;\nreturn ((u64)*(arg_8) ^ (*(arg_10) * 0x4e67c6a7));"
    );
    let xored = "return arg1 ^ (arg2 * 0x4e67c6a7);";
    assert_eq!(run(values::polish_crc_xor_return, xored), xored);
}

#[test]
fn sentinels_become_characters() {
    assert_eq!(
        run(values::polish_sentinel_literals, "if (*(char *)(p) == 0x0) {\nif (x == 0x0) {\n"),
        "if (*(char *)(p) == '\\0') {\nif (x == 0x0) {\n"
    );
    assert_eq!(run(values::polish_sentinel_literals, "} else {\n    }\nx;"), "}\nx;\n");
}

#[test]
fn pairs_of_zero_tests_become_one() {
    assert_eq!(
        run(flags::polish_dual_flag_zero_tests, "if ((arg1==0x0),(0x0!=(arg1<0x0))) x;"),
        "if ((arg1 == 0x0)) x;"
    );
    assert_eq!(
        run(flags::polish_dual_flag_zero_tests, "q(r9 == 0x0) , ( 0x0 != (r9 < 0x0) )z"),
        "q(r9 == 0x0)z"
    );
    assert_eq!(run(flags::polish_dual_flag_zero_tests, "(a==0),(0!=(a<0))"), "(a == 0x0)");
    let other = "(a==0x0),(0x0!=(b<0x0))";
    assert_eq!(run(flags::polish_dual_flag_zero_tests, other), other);
}

#[test]
fn pairs_of_less_tests_become_one() {
    assert_eq!(
        run(flags::polish_flag_lt_compares, "  if (((rax) < 0x8) != (((rax) - 0x8) < 0x0)) {"),
        "  if ((rax < 0x8)) {\n"
    );
    assert_eq!(
        run(flags::polish_flag_lt_compares, "while (!(((rax) < 0x8) != (((rax) - 0x8) < 0x0)))"),
        "while (!((rax < 0x8)))\n"
    );
    assert_eq!(run(flags::polish_flag_lt_compares, "x = (a < 0x8);"), "x = (a < 0x8);\n");
}

#[test]
fn guards_fit_on_one_line() {
    assert_eq!(
        run(guards::polish_guard_returns, "if (a) {\nreturn 1;\n}\nelse {\nreturn 2;\n}\n"),
        "if (a) return 1;\nelse return 2;\n"
    );
    assert_eq!(run(guards::polish_guard_returns, "else {\nreturn 2;\n}"), "else return 2;");
    assert_eq!(run(guards::polish_guard_returns, "if (a) {\nx;\n}\n"), "if (a) {\nx;\n}\n");
}

#[test]
fn mixed_return_leaves_its_guard() {
    let src = "f() {\n if ((p == 0x0)) {\n  y = 1;\n } else {\n  return 0;\n }\n return (x ^ 0x45d9f3b);\n}\n";
    assert_eq!(
        run(guards::polish_hoist_rich_xor_return, src),
        "f() {\n if (!((p == 0x0))) return 0;\n  y = 1;\n return (x ^ 0x45d9f3b);\n}\n"
    );
}

#[test]
fn status_goes_before_the_guarded_arm() {
    let src = "if (!(p == 0x0)) {\n  x;\n} else {\n  return 0x80004003;\n}\n";
    assert_eq!(
        run(guards::polish_hoist_null_guard_returns, src),
        "if ((p==0x0)) return 0x80004003;\n  x;\n"
    );
}

#[test]
fn default_arm_gets_its_status() {
    let src = "switch (t) {\ncase 3:\ncase 8:\ncase 13:\nx;\ndefault:\nreturn 1;\n}\n";
    assert_eq!(
        run(hresult::polish_e_pointer_returns, src),
        "switch (t) {\ncase 3:\ncase 8:\ncase 13:\nx;\ndefault:\nhr = 0x80070057;\nreturn 0x80070057;\n}\n"
    );
}

#[test]
fn teardown_calls_are_marked_and_named() {
    let src = "while (1) {\n}\n FUN_1(0x30 + fp);\n FUN_1(0x38 + fp);\n";
    assert_eq!(
        run(resources::polish_paired_cleanup_destroys, src),
        "while (1) {\n}\n /* destroy */\n FUN_1(0x30 + fp);\n /* destroy */\n FUN_1(0x38 + fp);\n"
    );
    let both = "FUN_9((0x30 + fp_2), 0x1);\nFUN_9((0x38 + fp), 2);\n/* destroy */\nFUN_8((0x38 + fp_3));\nFUN_8((0x30 + fp));";
    assert_eq!(
        run(resources::polish_resource_pair_names, both),
        "res_init(&a, 1);\nres_init(&b, 2);\nres_destroy(&b);\nres_destroy(&a);"
    );
}

#[test]
fn keywords_are_not_repeated() {
    assert_eq!(run(keywords::polish_nested_while_keyword, "while ((while((x)))"), "while (((x)))");
    assert_eq!(run(keywords::polish_nested_if_keyword, "if (if(if(x)))"), "if (x)))");
    assert_eq!(
        run(keywords::polish_switch_with_guard_if, "f() {switch (x) {}}"),
        "f() {\n if ((1)) {switch (x) {} }\n}"
    );
    assert_eq!(run(keywords::polish_loop_with_guard_if, "f() {x;}"), "f() {x;}");
}

#[test]
fn flag_noise_is_dropped() {
    let out = run(noise::strip_flag_helper_noise, "if (/*(IntSLess)*/ (a < b)) {\n}\n");
    assert!(!out.contains("IntSLess"));
    assert!(out.contains("(a < b)"));
}

#[test]
fn ladder_with_bodies_becomes_a_switch() {
    let src = "f() {\nif (arg_1 == 0x1) {\n a;\n} else {\nif (arg_1 == 0x2) {\n b;\n} else {\n FUN_3();\n}\n}\nend;\n}\n";
    assert_eq!(
        run(ladder::fold_eq_ladder_to_switch, src),
        "f() {\n switch (arg_1) {\n case 1:\n a;\n break;\n case 2:\n b;\n break;\n default:\n FUN_3();\n break;\n }\n\nend;\n}\n"
    );
}

#[test]
fn file_signatures_are_no_tags() {
    let src = "if (arg_1 == 0x5a4d) {\n}\nif (arg_1 == 0x2) {\n}\n";
    assert_eq!(run(ladder::fold_eq_ladder_to_switch, src), src);
}

#[test]
fn labels_jumped_back_to_become_loops() {
    let out = run(gotos::rewrite_label_backedge_to_while, "L_0x10:\n x = x + 1;\n if (x < 5) goto L_0x10;\n y;\n");
    assert!(out.contains("while ("), "{out}");
    assert!(!out.contains("goto"), "{out}");
}

#[test]
fn ladder_value_is_skipped_by_its_bytes() {
    let src = "if ((arg_0)é - 0x1) == 0x0) {\n x = 1;\n} else if (!(((arg_0) - 0x2) == 0x0)) {\n y = 2;\n}\n\
        if (!(((arg_0) - 0x1) == 0x0)) {\n z = 3;\n}\nif (!(((arg_0) - 0x2) == 0x0)) {\n z = 4;\n}\n";
    let out = run(ladder::fold_eq_ladder_to_switch, src);
    assert!(
        out.starts_with(" switch (((arg_0)) {\n case 2:\n x = 1;\n break;\n }\n"),
        "{out}"
    );
    assert!(out.contains("z = 3;") && out.contains("z = 4;"), "{out}");
}

#[test]
fn ladder_inside_else_is_measured_in_bytes() {
    let inner = "if ((arg_0 - 0x2) == 0x0) {\n é = 2;\n }";
    let src = format!("if ((arg_0 - 0x1) == 0x0) {{\n a = 1;\n}} else {{\n {inner}\n}}\nreturn;\n");
    let out = run(ladder::fold_eq_ladder_to_switch, &src);
    let want = format!(
        " switch (arg_0) {{\n case 1:\n a = 1;\n break;\n case 2:\n é = 2;\n break;\n }}\n{}",
        &src[inner.len()..]
    );
    assert_eq!(out, want);
}
