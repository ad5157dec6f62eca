use five_lines::diff;
use five_lines::tree::ParsedFile;
use five_lines::units::{all_units, units_for};

const CHANGE: &str = "diff --git a/orders/pricing.py b/orders/pricing.py\n--- a/orders/pricing.py\n+++ b/orders/pricing.py\n@@ -9,4 +9,7 @@\n \n-def quote(order):\n+def quote(order, start_date, end_date):\n     price = order.base\n+    days = (end_date - start_date).days\n+    if days > 3:\n+        price += 10\n     return price\ndiff --git a/web/cart.ts b/web/cart.ts\nnew file mode 100644\n--- /dev/null\n+++ b/web/cart.ts\n@@ -0,0 +1,13 @@\n+export class Cart {\n+  private items: number[] = [];\n+\n+  add(price: number): void {\n+    this.items.push(price);\n+  }\n+\n+  private total = 0;\n+\n+  getTotal(): number {\n+    return this.total;\n+  }\n+}\n";
const PRICING: &str = "def legacy_report(rows):\n    total = 0\n    for row in rows:\n        total += row\n    print(total)\n    print(len(rows))\n    return total\n\n\ndef quote(order, start_date, end_date):\n    price = order.base\n    days = (end_date - start_date).days\n    if days > 3:\n        price += 10\n    return price\n";

#[test]
fn braces_in_strings_and_comments_do_not_confuse_a_real_parser() {
    let source = "class A {\n  render(): string {\n    // a } in a comment\n    return \"}{\";\n  }\n}\n";
    let parsed = ParsedFile::parse("a.ts", source).unwrap();
    let unit = &all_units("a.ts", &parsed)[0];
    assert_eq!((unit.name.as_str(), unit.start, unit.end), ("render", 2, 5));
}

#[test]
fn an_arrow_function_takes_the_name_it_is_assigned_to() {
    let parsed = ParsedFile::parse("a.js", "const total = (a, b) => {\n  return a + b;\n};\n").unwrap();
    assert_eq!(all_units("a.js", &parsed)[0].name, "total");
}

#[test]
fn a_c_function_takes_the_name_inside_its_declarator() {
    let parsed = ParsedFile::parse("m.c", "int f(int a) {\n    return a;\n}\n").unwrap();
    assert_eq!(all_units("m.c", &parsed)[0].name, "f");
}

#[test]
fn without_the_file_the_hunk_is_the_unit() {
    let text = "diff --git a/web/cart.ts b/web/cart.ts\n--- a/web/cart.ts\n+++ b/web/cart.ts\n@@ -8,4 +8,6 @@\n class Cart {\n   items = [];\n+  getTotal(): number {\n+    return 1;\n+  }\n }\n";
    let file = diff::parse(text).into_iter().next().unwrap();
    let units = units_for(&file, None);
    assert!(!units.is_empty());
    assert!(units.iter().all(|u| !u.is_method));
    assert_eq!(units[0].name, "lines 10-12");
    assert_eq!((units[0].start, units[0].end), (8, 13));
    assert_eq!(units[0].language, "typescript");
}

#[test]
fn only_methods_holding_added_lines_are_units() {
    let source = "def quote(x):\n    return x\n\ndef legacy_report():\n    return 2\n";
    let parsed = ParsedFile::parse("p.py", source).unwrap();
    let text = "--- a/p.py\n+++ b/p.py\n@@ -2,0 +2,1 @@\n+    return x\n";
    let file = diff::parse(text).into_iter().next().unwrap();
    let names: Vec<String> = units_for(&file, Some(&parsed)).into_iter().map(|u| u.name).collect();
    assert_eq!(names, ["quote"]);
}

#[test]
fn added_text_holds_only_the_added_lines() {
    let source = "def quote(x):\n    y = 1\n    return x\n";
    let parsed = ParsedFile::parse("p.py", source).unwrap();
    let unit = all_units("p.py", &parsed).into_iter().next().unwrap();
    assert_eq!(unit.added_text(), "def quote(x):\n    y = 1\n    return x");
    assert!(unit.added(2));
    assert!(!unit.added(9));
}

#[test]
fn every_node_is_linked_to_its_parent_and_children() {
    let parsed = ParsedFile::parse("m.py", "def f(x):\n    if x:\n        return 1\n").unwrap();
    assert_eq!(parsed.nodes[0].kind, "module");
    assert_eq!(parsed.nodes[0].parent, None);
    for (i, node) in parsed.nodes.iter().enumerate() {
        if let Some(p) = node.parent {
            assert!(p < i);
            assert!(parsed.nodes[p].children.contains(&i));
        }
        for &c in &node.children {
            assert_eq!(parsed.nodes[c].parent, Some(i));
        }
    }
    let f = parsed.functions()[0];
    assert_eq!(parsed.kind_is(f, "function_definition"), true);
    assert_eq!(parsed.text(f), "def f(x):\n    if x:\n        return 1");
    assert_eq!(parsed.line(f), 1);
}

#[test]
fn every_unit_of_a_file_finds_its_function_node_again() {
    let source = "class A {\n  first(): number {\n    return 1;\n  }\n  second(x: number) {\n    const f = (y: number) => y + x;\n    return f(2);\n  }\n}\n";
    let parsed = ParsedFile::parse("a.ts", source).unwrap();
    let units = all_units("a.ts", &parsed);
    assert!(units.len() >= 2);
    for unit in &units {
        let node = parsed.node_of(unit).unwrap();
        let n = &parsed.nodes[node];
        assert_eq!(unit.bytes, Some((n.start_byte, n.end_byte)));
        assert_eq!((unit.start, unit.end), (n.start_row + 1, n.end_row + 1));
        assert!(five_lines::lang::is_function(&n.kind));
    }
    let first = &units[0];
    let detached = five_lines::units::Unit {
        path: first.path.clone(),
        language: first.language.clone(),
        name: first.name.clone(),
        is_method: first.is_method,
        start: first.start,
        end: first.end,
        source: first.source.clone(),
        added_lines: first.added_lines.clone(),
        bytes: None,
    };
    assert_eq!(parsed.node_of(&detached), None);
}

#[test]
fn only_methods_containing_added_lines_are_units() {
    let file = diff::parse(CHANGE).into_iter().find(|f| f.path == "orders/pricing.py").unwrap();
    let parsed = ParsedFile::parse("orders/pricing.py", PRICING).unwrap();
    let names: Vec<String> = units_for(&file, Some(&parsed)).into_iter().map(|u| u.name).collect();
    assert!(names.contains(&"quote".to_string()));
    assert!(!names.contains(&"legacy_report".to_string()), "long, but untouched by the diff");
}
