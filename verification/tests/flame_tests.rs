use jstack_flame::aggregate::{clear_jstack_info, Aggregator};
use jstack_flame::node::FlameGraphNode;
use jstack_flame::normalize::{canon_str, frame_label_of, header_name_of};
use jstack_flame::parse::parse_stack_trace;
use jstack_flame::split::{split_blocks, split_lines};

fn child<'a>(n: &'a FlameGraphNode, name: &str) -> &'a FlameGraphNode {
    n.children
        .iter()
        .find(|c| c.name == name)
        .unwrap_or_else(|| panic!("no child named {name}"))
}

fn has_child(n: &FlameGraphNode, name: &str) -> bool {
    n.children.iter().any(|c| c.name == name)
}

fn lines_of(text: &str) -> Vec<String> {
    text.lines().map(|l| l.to_string()).collect()
}

#[test]
fn normalize_strips_at_marker() {
    let l = frame_label_of("    at com.foo.Bar.run(Bar.java:42)").unwrap();
    assert_eq!(l, "com.foo.Bar.run(Bar.java:{num})");
}

#[test]
fn normalize_strips_dash_marker() {
    let l = frame_label_of("\t- locked <0x00000000e39a5a18> (a java.lang.Object)").unwrap();
    assert_eq!(l, "locked <{num}x{num}e{num}a{num}a{num}> (a java.lang.Object)");
}

#[test]
fn normalize_strips_both_markers_in_either_order() {
    let a = frame_label_of("  - at foo.bar(Baz.java:7)").unwrap();
    let b = frame_label_of("  at - foo.bar(Baz.java:7)").unwrap();
    assert_eq!(a, "foo.bar(Baz.java:{num})");
    assert_eq!(b, "foo.bar(Baz.java:{num})");
}

#[test]
fn normalize_skips_non_frame_lines() {
    assert!(frame_label_of("   java.lang.Thread.State: RUNNABLE").is_none());
    assert!(frame_label_of("").is_none());
    assert!(frame_label_of("attribute = 3").is_none());
}

#[test]
fn normalize_collapses_digit_runs_and_tabs() {
    assert_eq!(canon_str(" a\tb12c345 "), "ab{num}c{num}");
    assert_eq!(canon_str("12"), "{num}");
    assert_eq!(canon_str(""), "");
}

// Idempotent normalization: normalizing an already-normalized label
// changes nothing.
#[test]
fn normalize_is_idempotent() {
    for raw in [
        "  pool-1-thread-23  ",
        "com.foo.Bar.run(Bar.java:42)",
        "\tweird \t 7name9",
        "{num} already collapsed",
    ] {
        let once = canon_str(raw);
        let twice = canon_str(&once);
        assert_eq!(once, twice);
    }
}

// Digit collapse: labels differing only in digits coincide and merge
// into one node with the combined count.
#[test]
fn digit_collapse_merges_call_sites() {
    let a = canon_str("com.foo.Bar.run(Bar.java:42)");
    let b = canon_str("com.foo.Bar.run(Bar.java:57)");
    assert_eq!(a, b);

    let mut agg = Aggregator::new();
    assert!(agg.merge_dump("\"main\" #1\n    at com.foo.Bar.run(Bar.java:42)\n"));
    assert!(agg.merge_dump("\"main\" #1\n    at com.foo.Bar.run(Bar.java:57)\n"));
    let snap = agg.snapshot();
    let main = child(&snap, "main");
    assert_eq!(main.num, 2);
    assert_eq!(main.children.len(), 1);
    let site = child(main, "com.foo.Bar.run(Bar.java:{num})");
    assert_eq!(site.num, 2);
    assert!(site.children.is_empty());
}

#[test]
fn header_name_between_first_quote_pair() {
    assert_eq!(header_name_of("\"main\" #1 prio=5").unwrap(), "main");
    assert_eq!(header_name_of("\"pool-1-thread-7\" daemon").unwrap(), "pool-{num}-thread-{num}");
    assert!(header_name_of("no quotes here").is_none());
    assert!(header_name_of("one \" quote only").is_none());
}

#[test]
fn splitter_groups_indented_lines_under_headers() {
    let text = "\"main\" #1\n    at a.b(C.java:1)\n\n\"worker\" #2\n\tat d.e(F.java:2)\n";
    let blocks = split_blocks(&split_lines(text));
    assert_eq!(blocks.len(), 2);
    assert_eq!(blocks[0].len(), 2);
    assert_eq!(blocks[0][0], "\"main\" #1");
    assert_eq!(blocks[1].len(), 2);
    assert_eq!(blocks[1][0], "\"worker\" #2");
}

#[test]
fn splitter_drops_blank_lines_without_ending_block() {
    let text = "\"main\" #1\n\n    at a.b(C.java:1)\n";
    let blocks = split_blocks(&split_lines(text));
    assert_eq!(blocks.len(), 1);
    assert_eq!(blocks[0].len(), 2);
}

#[test]
fn parser_builds_reverse_order_chain() {
    let block = lines_of("\"main\" #1\n    at com.foo.Bar.run(Bar.java:10)\n    at com.foo.Baz.call(Baz.java:20)");
    let t = parse_stack_trace(&block);
    assert_eq!(t.name, "Root");
    assert_eq!(t.num, 1);
    let main = child(&t, "main");
    assert_eq!(main.num, 1);
    // the last printed (innermost) frame sits directly under the thread
    let inner = child(main, "com.foo.Baz.call(Baz.java:{num})");
    let outer = child(inner, "com.foo.Bar.run(Bar.java:{num})");
    assert_eq!(inner.num, 1);
    assert_eq!(outer.num, 1);
    assert!(outer.children.is_empty());
}

#[test]
fn parser_counts_header_only_block() {
    let block = lines_of("\"idle\" #3");
    let t = parse_stack_trace(&block);
    let idle = child(&t, "idle");
    assert_eq!(idle.num, 1);
    assert!(idle.children.is_empty());
}

// Malformed block: a header without a quoted name contributes nothing
// and does not fail the rest of the parse.
#[test]
fn headerless_block_contributes_nothing() {
    let block = lines_of("main thread without quotes\n    at a.b(C.java:1)");
    let t = parse_stack_trace(&block);
    assert_eq!(t.num, 0);
    assert!(t.children.is_empty());

    let mut agg = Aggregator::new();
    assert!(agg.merge_dump("no quoted name here\n    at a.b(C.java:1)\n\n\"real\" #1\n    at d.e(F.java:2)\n"));
    let snap = agg.snapshot();
    assert_eq!(snap.children.len(), 1);
    assert!(has_child(&snap, "real"));
}

// The pinned policy for infrastructure threads: only the offending block
// is dropped; the rest of the dump is still parsed.
#[test]
fn infra_thread_block_is_skipped_alone() {
    let dump = "\"VM Thread\" os_prio=2\n    at x.y(Z.java:3)\n\n\"main\" #1\n    at a.b(C.java:1)\n";
    let mut agg = Aggregator::new();
    assert!(agg.merge_dump(dump));
    let snap = agg.snapshot();
    assert_eq!(snap.children.len(), 1);
    assert!(has_child(&snap, "main"));
    assert!(!has_child(&snap, "VM Thread"));
}

// Reset clears fully: after the reset the snapshot is the bare sentinel
// root with zero children.
#[test]
fn reset_clears_fully() {
    let mut agg = Aggregator::new();
    assert!(agg.merge_dump("\"main\" #1\n    at a.b(C.java:1)\n"));
    clear_jstack_info(&mut agg);
    let snap = agg.snapshot();
    assert_eq!(snap.name, "Root");
    assert_eq!(snap.num, 0);
    assert!(snap.children.is_empty());
}

// No loss across samples: N distinct single-frame dumps merged one after
// the other leave a cumulative tree whose leaf counts sum to N.
#[test]
fn no_sample_is_lost_across_merges() {
    let n = 16u32;
    let mut agg = Aggregator::new();
    for i in 0..n {
        let dump = format!("\"t-x{}y\" #1\n    at site{}x.m(F.java:1)\n", "q".repeat(i as usize + 1), "q".repeat(i as usize + 1));
        assert!(agg.merge_dump(&dump));
    }
    let snap = agg.snapshot();
    assert_eq!(snap.children.len(), n as usize);
    let leaf_sum: u32 = snap
        .children
        .iter()
        .map(|t| t.children.iter().map(|c| c.num).sum::<u32>())
        .sum();
    assert_eq!(leaf_sum, n);
}

// End-to-end scenario: a two-thread dump yields the expected tree, and
// merging the identical dump again doubles every count without
// duplicating nodes.
#[test]
fn end_to_end_two_thread_dump() {
    let dump = "\"main\" #1\n   java.lang.Thread.State: RUNNABLE\n    at com.foo.Bar.run(Bar.java:10)\n    at com.foo.Baz.call(Baz.java:20)\n\n\"worker-1\" #2\n    at com.foo.Bar.run(Bar.java:99)\n";
    let mut agg = Aggregator::new();
    assert!(agg.merge_dump(dump));
    let snap = agg.snapshot();
    assert_eq!(snap.children.len(), 2);
    let main = child(&snap, "main");
    assert_eq!(main.num, 1);
    let inner = child(main, "com.foo.Baz.call(Baz.java:{num})");
    let outer = child(inner, "com.foo.Bar.run(Bar.java:{num})");
    assert_eq!(inner.num, 1);
    assert_eq!(outer.num, 1);
    let worker = child(&snap, "worker-{num}");
    assert_eq!(worker.num, 1);
    assert_eq!(child(worker, "com.foo.Bar.run(Bar.java:{num})").num, 1);

    assert!(agg.merge_dump(dump));
    let snap2 = agg.snapshot();
    assert_eq!(snap2.children.len(), 2);
    let main2 = child(&snap2, "main");
    assert_eq!(main2.num, 2);
    let inner2 = child(main2, "com.foo.Baz.call(Baz.java:{num})");
    assert_eq!(inner2.num, 2);
    assert_eq!(child(inner2, "com.foo.Bar.run(Bar.java:{num})").num, 2);
    let worker2 = child(&snap2, "worker-{num}");
    assert_eq!(worker2.num, 2);
    assert_eq!(worker2.children.len(), 1);
}

fn counts(t: &FlameGraphNode, path: &[&str]) -> u32 {
    let mut cur = t;
    for name in path {
        match cur.children.iter().find(|c| c.name == *name) {
            Some(c) => cur = c,
            None => return 0,
        }
    }
    cur.num
}

// Associativity: merging a, b, then c into an empty root gives the same
// counts as merging a with the combination of b and c.
#[test]
fn merge_is_associative_in_counts() {
    let a = parse_stack_trace(&lines_of("\"t1\" #1\n    at m.a(A.java:1)\n    at m.b(B.java:2)"));
    let b = parse_stack_trace(&lines_of("\"t1\" #1\n    at m.a(A.java:9)"));
    let c = parse_stack_trace(&lines_of("\"t2\" #2\n    at m.c(C.java:3)"));

    let mut left = FlameGraphNode::new("Root", 0);
    left.merge(a.copy_tree());
    left.merge(b.copy_tree());
    left.merge(c.copy_tree());

    let mut bc = b.copy_tree();
    bc.merge(c.copy_tree());
    let mut right = a.copy_tree();
    right.merge(bc);

    for path in [
        vec!["t1"],
        vec!["t1", "m.a(A.java:{num})"],
        vec!["t1", "m.b(B.java:{num})", "m.a(A.java:{num})"],
        vec!["t2"],
        vec!["t2", "m.c(C.java:{num})"],
    ] {
        assert_eq!(counts(&left, &path), counts(&right, &path));
    }
}

#[test]
fn get_or_insert_reuses_and_creates() {
    let mut t = FlameGraphNode::new("Root", 0);
    let i = t.get_or_insert("alpha");
    assert_eq!(t.children[i].name, "alpha");
    assert_eq!(t.children[i].num, 1);
    let j = t.get_or_insert("alpha");
    assert_eq!(i, j);
    assert_eq!(t.children.len(), 1);
    let k = t.get_or_insert("beta");
    assert_ne!(i, k);
    assert_eq!(t.children.len(), 2);
}

#[test]
fn merge_grafts_and_accumulates() {
    let mut t = FlameGraphNode::new("Root", 0);
    let mut x = FlameGraphNode::new("Root", 1);
    x.get_or_insert("a");
    t.merge(x);
    let mut y = FlameGraphNode::new("Root", 1);
    y.get_or_insert("a");
    y.get_or_insert("b");
    t.merge(y);
    assert_eq!(t.num, 2);
    assert_eq!(child(&t, "a").num, 2);
    assert_eq!(child(&t, "b").num, 1);
}

#[test]
fn empty_dump_is_a_no_op_merge() {
    let mut agg = Aggregator::new();
    assert!(agg.merge_dump(""));
    let snap = agg.snapshot();
    assert_eq!(snap.name, "Root");
    assert_eq!(snap.num, 0);
    assert!(snap.children.is_empty());

    assert!(agg.merge_dump("\"main\" #1\n"));
    assert!(agg.merge_dump("\n\n   \n"));
    let snap2 = agg.snapshot();
    assert_eq!(snap2.children.len(), 1);
    assert_eq!(child(&snap2, "main").num, 1);
}

#[test]
fn can_merge_refuses_overflowing_counts() {
    let near_full = FlameGraphNode {
        name: "Root".to_string(),
        num: u32::MAX,
        children: Vec::new(),
    };
    let one = FlameGraphNode::new("Root", 1);
    assert!(!near_full.can_merge(&one));
    let zero = FlameGraphNode::new("Root", 0);
    assert!(near_full.can_merge(&zero));
}

#[test]
fn overflowing_sample_leaves_tree_untouched() {
    let mut agg = Aggregator::new();
    agg.root = FlameGraphNode {
        name: "Root".to_string(),
        num: u32::MAX,
        children: Vec::new(),
    };
    assert!(!agg.merge_dump("\"main\" #1\n"));
    assert_eq!(agg.root.num, u32::MAX);
    assert!(agg.root.children.is_empty());
}
