use bfc::ast::AST;
use bfc::codegen::{assembly, codegen, AssemblyCodeGenerator, CCodeGenerator, Codegen};
use bfc::parser::parse_source;

fn asm_of(source: &str, optimized: bool) -> String {
    codegen::<AssemblyCodeGenerator>(parse_source(source).unwrap(), optimized)
}

fn c_of(source: &str, optimized: bool) -> String {
    codegen::<CCodeGenerator>(parse_source(source).unwrap(), optimized)
}

fn body_of(text: &str, start: &str, end: &str) -> String {
    assert!(text.starts_with(start));
    assert!(text.ends_with(end));
    text[start.len()..text.len() - end.len()].to_string()
}

fn asm_body(source: &str, optimized: bool) -> String {
    body_of(
        &asm_of(source, optimized),
        assembly::TEMPLATE_START,
        assembly::TEMPLATE_END,
    )
}

#[test]
fn increment_then_print_optimized() {
    assert_eq!(
        parse_source("+++.").unwrap(),
        AST::Root(vec![AST::Add(3), AST::PrintChar])
    );
    assert_eq!(
        asm_body("+++.", true),
        "        addb $3, (%rbx)\n        movzbl (%rbx), %edi\n        call putchar\n"
    );
}

#[test]
fn increment_then_print_unoptimized() {
    assert_eq!(
        asm_body("+++.", false),
        "        addb $1, (%rbx)\n        addb $1, (%rbx)\n        addb $1, (%rbx)\n        movzbl (%rbx), %edi\n        call putchar\n"
    );
}

#[test]
fn transfer_loop() {
    assert_eq!(
        parse_source("[->+<]").unwrap(),
        AST::Root(vec![AST::Loop(vec![
            AST::Subtract(1),
            AST::Right(1),
            AST::Add(1),
            AST::Left(1),
        ])])
    );
    assert_eq!(
        asm_body("[->+<]", true),
        "        jmp .loop_condition_1\n.loop_body_0:\n        subb $1, (%rbx)\n        addq $1, %rbx\n        addb $1, (%rbx)\n        subq $1, %rbx\n.loop_condition_1:\n        cmpb $0, (%rbx)\n        jne .loop_body_0\n"
    );
}

#[test]
fn sibling_and_nested_loops_get_fresh_labels() {
    let text = asm_body("[->+<][[-]]", true);
    for label in [
        "loop_body_0",
        "loop_condition_1",
        "loop_body_2",
        "loop_condition_3",
        "loop_body_4",
        "loop_condition_5",
    ] {
        let definition = format!(".{label}:\n");
        assert_eq!(text.matches(&definition).count(), 1, "{label}");
    }
    assert!(!text.contains("_6"));
}

#[test]
fn unoptimized_spells_out_counts() {
    let optimized = asm_body(">>>>-<<", true);
    assert_eq!(
        optimized,
        "        addq $4, %rbx\n        subb $1, (%rbx)\n        subq $2, %rbx\n"
    );
    let unoptimized = asm_body(">>>>-<<", false);
    assert_eq!(unoptimized.matches("        addq $1, %rbx\n").count(), 4);
    assert_eq!(unoptimized.matches("        subb $1, (%rbx)\n").count(), 1);
    assert_eq!(unoptimized.matches("        subq $1, %rbx\n").count(), 2);
    assert_eq!(unoptimized.lines().count(), 7);
}

#[test]
fn cell_counts_are_printed_literally() {
    let source = "+".repeat(258);
    assert_eq!(asm_body(&source, true), "        addb $258, (%rbx)\n");
    let source = ">".repeat(300);
    assert_eq!(asm_body(&source, true), "        addq $300, %rbx\n");
}

#[test]
fn both_backends_print_the_same_count() {
    let source = "-".repeat(300);
    assert!(asm_of(&source, true).contains("        subb $300, (%rbx)\n"));
    assert!(c_of(&source, true).contains("    *ptr -= 300;\n"));
}

#[test]
fn compiling_twice_gives_the_same_text() {
    let source = "++[>+[-]<-],.[]";
    assert_eq!(asm_of(source, true), asm_of(source, true));
    assert_eq!(asm_of(source, false), asm_of(source, false));
    assert_eq!(c_of(source, true), c_of(source, true));
}

#[test]
fn empty_program_is_prologue_and_epilogue() {
    assert_eq!(
        asm_of("", true),
        format!("{}{}", assembly::TEMPLATE_START, assembly::TEMPLATE_END)
    );
    assert_eq!(
        c_of("", false),
        format!(
            "{}{}",
            bfc::codegen::c::TEMPLATE_START,
            bfc::codegen::c::TEMPLATE_END
        )
    );
}

#[test]
fn c_backend_statements() {
    let text = c_of("+++.[-<,]", true);
    let body = body_of(&text, bfc::codegen::c::TEMPLATE_START, bfc::codegen::c::TEMPLATE_END);
    assert_eq!(
        body,
        "    *ptr += 3;\n    putchar(*ptr);\n    while (*ptr) {\n    *ptr -= 1;\n    ptr -= 1;\n    *ptr = (unsigned char)getchar();\n    }\n"
    );
    let unoptimized = c_of(">>", false);
    assert!(unoptimized.contains("    ptr += 1;\n    ptr += 1;\n"));
    assert!(!unoptimized.contains("ptr += 2"));
}

#[test]
fn trait_and_free_function_agree() {
    let a = <AssemblyCodeGenerator as Codegen>::codegen(parse_source("+[-]").unwrap(), true);
    let b = assembly::codegen(parse_source("+[-]").unwrap(), true);
    assert_eq!(a, b);
    let c = <CCodeGenerator as Codegen>::codegen(parse_source("+[-]").unwrap(), true);
    assert!(c.contains("while (*ptr) {"));
}

#[test]
fn large_counts_print_every_digit() {
    let source = "<".repeat(1234);
    assert_eq!(asm_body(&source, true), "        subq $1234, %rbx\n");
    assert!(c_of(&"-".repeat(1005), true).contains("    *ptr -= 1005;\n"));
}
