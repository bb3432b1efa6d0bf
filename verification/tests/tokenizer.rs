use helix::migrate::discovery::discover;

#[test]
fn extracts_imports_and_exports() {
    let src = r#"
        // a comment with import inside should be ignored
        import React, { useState, useEffect } from "react";
        import * as utils from "./utils";
        import def from "mod";

        export function start() {}
        export const VERSION = "1.0";
        export class Service {}
        export default function () {}

        function helper() {}
    "#;

    let map = discover(src);

    assert_eq!(map.imports.len(), 3);
    assert_eq!(map.imports[0].module, "react");
    assert_eq!(map.imports[0].names, vec!["useState", "useEffect"]);
    assert!(map.imports[0].default);
    assert_eq!(map.imports[1].module, "./utils");
    assert!(map.imports[1].namespace);
    assert_eq!(map.imports[2].module, "mod");
    assert!(map.imports[2].default);

    let names: Vec<&str> = map.exports.iter().map(|e| e.name.as_str()).collect();
    assert!(names.contains(&"start"));
    assert!(names.contains(&"VERSION"));
    assert!(names.contains(&"Service"));
    assert!(names.contains(&"default"));

    assert_eq!(map.functions, vec!["helper"]);
    assert!(map.symbol_count() >= 7);
}

#[test]
fn handles_reexport_and_empty() {
    let map = discover("");
    assert_eq!(map.symbol_count(), 0);

    let src = r#"export { a, b } from "./other";"#;
    let map = discover(src);
    // Re-export form: module is captured, no named functions declared.
    assert_eq!(map.imports.len(), 1);
    assert_eq!(map.imports[0].module, "./other");
}
