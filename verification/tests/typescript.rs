use ql::adapters::typescript::{extract_import_alias, TypeScriptAdapter};
use ql::ast::adapter::{walk_source, LanguageAdapter};

#[test]
fn typescript_maps_typescript_items() {
    let source = r#"
    import { readFileSync as readFile } from "fs";

    class Person implements Greeter, Serializable {
      name: string;
      greet(message: string): string {
    return message;
      }
    }

    function add(a: number, b: number): number {
      return a + b;
    }

    const answer: number = 42;
    "#;

    let batch = walk_source(&TypeScriptAdapter, "main.ts", source)
        .expect("typescript grammar should parse");

    assert_eq!(batch.functions.len(), 2);
    assert_eq!(batch.functions[0].name, "Person.greet");
    assert_eq!(batch.functions[1].name, "add");
    assert_eq!(batch.imports.len(), 1);
    assert_eq!(batch.imports[0].module, "fs");
    assert_eq!(batch.imports[0].alias, "readFile");
    assert_eq!(batch.structs.len(), 1);
    assert_eq!(batch.structs[0].implements, "Greeter,Serializable");
    assert_eq!(batch.variables.len(), 1);
}

#[test]
fn qualifies_method_callers_per_class() {
    let source = r#"
    class A {
      run() { helperA(); }
    }

    class B {
      run() { helperB(); }
    }

    function helperA() {}
    function helperB() {}
    "#;

    let batch = walk_source(&TypeScriptAdapter, "main.ts", source)
        .expect("typescript grammar should parse");

    assert_eq!(batch.functions[0].name, "A.run");
    assert_eq!(batch.functions[1].name, "B.run");
    assert_eq!(batch.calls[0].caller, "A.run");
    assert_eq!(batch.calls[1].caller, "B.run");
}

#[test]
fn describes_the_language() {
    let adapter = TypeScriptAdapter;
    assert_eq!(adapter.language_name(), "typescript");
    assert_eq!(adapter.extensions(), vec![".ts", ".tsx"]);
}

#[test]
fn fills_function_rows() {
    let source = "function add(a: number, b: number): number {\n  return a + b;\n}\n";
    let batch = walk_source(&TypeScriptAdapter, "math.ts", source).expect("parse");
    assert_eq!(batch.current_file, "math.ts");
    assert_eq!(batch.functions.len(), 1);
    let f = &batch.functions[0];
    assert_eq!(f.file, "math.ts");
    assert_eq!(f.line, 1);
    assert_eq!(f.name, "add");
    assert_eq!(f.visibility, "public");
    assert_eq!(f.param_count, 2);
    assert_eq!(f.return_type, "number");
    assert_eq!(f.complexity, 1);
    assert!(!f.has_test);
    assert_eq!(batch.fingerprints.len(), 1);
    let fp = &batch.fingerprints[0];
    assert_eq!(fp.name, "add");
    assert_eq!(fp.param_count, 2);
    assert_eq!(fp.return_count, 1);
    assert_eq!(fp.stmt_count, 1);
    assert_eq!(fp.branch_count, 0);
    assert!(!fp.has_error_handling);
    assert!(batch.callsets.is_empty());
}

#[test]
fn counts_decisions_and_logical_operators() {
    let source = r#"
function pick(a: number, b: number) {
  if (a > 0 && b > 0) {
    for (let i = 0; i < a; i++) {
      if (i > b || i < 0) { return i; }
    }
  }
  return a > b ? a : b;
}
"#;
    let batch = walk_source(&TypeScriptAdapter, "pick.ts", source).expect("parse");
    let f = &batch.functions[0];
    // base 1 + two ifs + a for + `&&` + `||`; the grammar calls `?:` a ternary expression
    assert_eq!(f.complexity, 6);
    let fp = &batch.fingerprints[0];
    assert_eq!(fp.branch_count, 2);
    assert_eq!(fp.loop_count, 1);
    assert_eq!(fp.return_count, 2);
    assert_eq!(fp.nesting_depth, 2);
}

#[test]
fn marks_private_and_protected_members() {
    let source = r#"
class Box {
  private hide(): void {}
  protected guard(): void {}
  _secret(): void {}
  show(): void {}
}
"#;
    let batch = walk_source(&TypeScriptAdapter, "box.ts", source).expect("parse");
    let names: Vec<&str> = batch.functions.iter().map(|f| f.name.as_str()).collect();
    assert_eq!(names, vec!["Box.hide", "Box.guard", "Box._secret", "Box.show"]);
    let vis: Vec<&str> = batch.functions.iter().map(|f| f.visibility.as_str()).collect();
    assert_eq!(vis, vec!["private", "internal", "private", "public"]);
    assert_eq!(batch.structs.len(), 1);
    assert_eq!(batch.structs[0].name, "Box");
    assert_eq!(batch.structs[0].field_count, 4);
    assert_eq!(batch.structs[0].implements, "");
}

#[test]
fn maps_variables_with_scope_and_mutability() {
    // The TSX grammar's root is a `program` node, never a `source_file` one, so no
    // declaration is given the module scope.
    let source = r#"
const limit: number = 3;
let count = 0;
var legacy = 1;
function run() {
  const inner = 2;
}
"#;
    let batch = walk_source(&TypeScriptAdapter, "vars.ts", source).expect("parse");
    let rows: Vec<(&str, &str, &str, bool)> = batch
        .variables
        .iter()
        .map(|v| (v.name.as_str(), v.type_hint.as_str(), v.scope.as_str(), v.is_mutated))
        .collect();
    assert_eq!(
        rows,
        vec![
            ("limit", ": number", "function", false),
            ("count", "", "function", true),
            ("legacy", "", "function", true),
            ("inner", "", "function", false),
        ]
    );
    assert_eq!(batch.variables[1].line, 3);
}

#[test]
fn maps_calls_with_callers() {
    let source = r#"
function main() {
  helper();
  console.log("x");
}
top();
"#;
    let batch = walk_source(&TypeScriptAdapter, "calls.ts", source).expect("parse");
    let rows: Vec<(&str, &str, bool)> = batch
        .calls
        .iter()
        .map(|c| (c.caller.as_str(), c.callee.as_str(), c.is_external))
        .collect();
    assert_eq!(
        rows,
        vec![("main", "helper", false), ("main", "console.log", true), ("", "top", false)]
    );
}

#[test]
fn maps_comments_and_doc_comments() {
    let source = "/** Adds. */\nfunction add() {}\n// plain\n";
    let batch = walk_source(&TypeScriptAdapter, "c.ts", source).expect("parse");
    assert_eq!(batch.comments.len(), 2);
    assert_eq!(batch.comments[0].text, "/** Adds. */");
    assert!(batch.comments[0].is_doc);
    assert_eq!(batch.comments[0].line, 1);
    assert_eq!(batch.comments[0].attached_to, "");
    assert_eq!(batch.comments[1].text, "// plain");
    assert!(!batch.comments[1].is_doc);
    assert_eq!(batch.comments[1].line, 3);
}

#[test]
fn maps_imports_and_standard_modules() {
    let source = r#"
import * as path from "path";
import React, { useState } from "react";
import { x as y } from "node:fs";
"#;
    let batch = walk_source(&TypeScriptAdapter, "i.ts", source).expect("parse");
    let rows: Vec<(&str, &str, bool)> = batch
        .imports
        .iter()
        .map(|i| (i.module.as_str(), i.alias.as_str(), i.is_std))
        .collect();
    assert_eq!(
        rows,
        vec![("path", "path", true), ("react", "", false), ("node:fs", "y", true)]
    );
}

#[test]
fn empty_source_gives_no_rows() {
    let batch = walk_source(&TypeScriptAdapter, "empty.ts", "").expect("parse");
    assert!(batch.functions.is_empty());
    assert!(batch.calls.is_empty());
    assert!(batch.imports.is_empty());
    assert!(batch.structs.is_empty());
    assert!(batch.variables.is_empty());
    assert!(batch.comments.is_empty());
    assert!(batch.fingerprints.is_empty());
}

#[test]
fn import_alias_of_namespace_import() {
    assert_eq!(extract_import_alias("import * as fs from \"fs\";"), "fs");
}

#[test]
fn import_alias_of_renamed_named_import() {
    assert_eq!(
        extract_import_alias("import { readFileSync as readFile } from \"fs\";"),
        "readFile"
    );
}

#[test]
fn import_alias_of_named_import_without_rename() {
    assert_eq!(extract_import_alias("import { readFileSync } from \"fs\";"), "");
}

#[test]
fn import_alias_of_default_import() {
    assert_eq!(extract_import_alias("import React, { useState } from \"react\";"), "");
    assert_eq!(extract_import_alias("import React from \"react\";"), "React");
    assert_eq!(extract_import_alias("import Foo, * as ns from \"m\""), "ns");
}

#[test]
fn import_alias_of_side_effect_import() {
    assert_eq!(extract_import_alias("import \"./styles.css\";"), "");
}

#[test]
fn fingerprints_loops_cases_and_error_handling() {
    let source = r#"
abstract class Shape {
  protected abstract area(): number;
}
function run(a?: number, ...rest: number[]) {
  try {
    for (const k in rest) {
      switch (k) {
        case "x": use(k); break;
        default: break;
      }
    }
    do { a--; } while (a);
  } catch (e) {
    throw e;
  }
}
"#;
    let batch = walk_source(&TypeScriptAdapter, "run.ts", source).expect("parse");
    assert_eq!(batch.structs.len(), 1);
    assert_eq!(batch.structs[0].name, "Shape");
    assert_eq!(batch.structs[0].field_count, 0);
    assert_eq!(batch.functions.len(), 1);
    let f = &batch.functions[0];
    assert_eq!(f.name, "run");
    assert_eq!(f.param_count, 2);
    assert_eq!(f.return_type, "");
    assert_eq!(f.complexity, 4);
    let fp = &batch.fingerprints[0];
    assert_eq!(fp.nesting_depth, 1);
    assert_eq!(fp.branch_count, 2);
    assert_eq!(fp.loop_count, 2);
    assert_eq!(fp.call_count, 1);
    assert_eq!(fp.return_count, 0);
    assert_eq!(fp.stmt_count, 6);
    assert!(fp.has_error_handling);
    assert_eq!(batch.calls.len(), 1);
    assert_eq!(batch.calls[0].caller, "run");
}
