use five_lines::diff::parse;

const CHANGE: &str = "diff --git a/orders/pricing.py b/orders/pricing.py\n--- a/orders/pricing.py\n+++ b/orders/pricing.py\n@@ -9,4 +9,7 @@\n \n-def quote(order):\n+def quote(order, start_date, end_date):\n     price = order.base\n+    days = (end_date - start_date).days\n+    if days > 3:\n+        price += 10\n     return price\ndiff --git a/web/cart.ts b/web/cart.ts\nnew file mode 100644\n--- /dev/null\n+++ b/web/cart.ts\n@@ -0,0 +1,13 @@\n+export class Cart {\n+  private items: number[] = [];\n+\n+  add(price: number): void {\n+    this.items.push(price);\n+  }\n+\n+  private total = 0;\n+\n+  getTotal(): number {\n+    return this.total;\n+  }\n+}\n";

#[test]
fn deleted_files_are_ignored() {
    let diff = "diff --git a/x.py b/x.py\n--- a/x.py\n+++ /dev/null\n@@ -1,2 +0,0 @@\n-a\n-b\n";
    assert!(parse(diff).is_empty());
}

#[test]
fn new_file_is_marked() {
    let diff = "diff --git a/n.py b/n.py\nnew file mode 100644\n--- /dev/null\n+++ b/n.py\n@@ -0,0 +1 @@\n+x = 1\n";
    assert!(parse(diff)[0].is_new);
}

#[test]
fn added_and_context_lines_carry_new_file_numbers() {
    let diff = "diff --git a/m.py b/m.py\n--- a/m.py\n+++ b/m.py\n@@ -12,3 +15,4 @@\n a = 1\n-b = 2\n+b = 3\n+c = 4\n\n";
    let files = parse(diff);
    assert_eq!(files.len(), 1);
    assert_eq!(files[0].path, "m.py");
    assert!(!files[0].is_new);
    assert_eq!(files[0].context[&15], "a = 1");
    assert_eq!(files[0].added[&16], "b = 3");
    assert_eq!(files[0].added[&17], "c = 4");
    assert_eq!(files[0].context[&18], "");
}

#[test]
fn a_hunk_header_with_a_plus_sign_and_no_count_is_read() {
    let diff = "--- a/q.rs\n+++ b/q.rs\n@@ -1 +7 @@\n+fn f() {}\r\n";
    let files = parse(diff);
    assert_eq!(files[0].added[&7], "fn f() {}");
}

#[test]
fn a_file_without_added_lines_is_left_out() {
    let diff = "--- a/a.py\n+++ b/a.py\n@@ -1,2 +1,1 @@\n a\n-b\n--- a/b.py\n+++ b/b.py\n@@ -3 +3 @@\n+c\n";
    let files = parse(diff);
    assert_eq!(files.len(), 1);
    assert_eq!(files[0].path, "b.py");
}

#[test]
fn a_counter_that_would_overflow_is_refused() {
    let diff = format!("--- a/a.py\n+++ b/a.py\n@@ -1 +{} @@\n+a\n+b\n", usize::MAX);
    assert!(five_lines::diff::parse_checked(&diff).is_none());
}

#[test]
fn added_lines_carry_new_file_numbers() {
    let files = parse(CHANGE);
    let paths: Vec<&str> = files.iter().map(|f| f.path.as_str()).collect();
    assert_eq!(paths, ["orders/pricing.py", "web/cart.ts"]);
    assert_eq!(files[1].added[&10].trim(), "getTotal(): number {");
}
