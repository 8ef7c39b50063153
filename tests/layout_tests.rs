use visfile::layout::create_treemap_layout;
use visfile::tree::DirNode;

fn file(name: &str, size: u64) -> DirNode {
    DirNode {
        name: name.to_string(),
        path: format!("/r/{}", name),
        size,
        children: Vec::new(),
        is_file: true,
    }
}

fn dir(name: &str, children: Vec<DirNode>) -> DirNode {
    let mut d = DirNode::new(name.to_string(), format!("/r/{}", name), false);
    for c in children {
        d.add_child(c);
    }
    d.calculate_total_size();
    d
}

fn geometry(r: &visfile::layout::TreemapRect) -> (u64, u64, u64, u64) {
    (r.x, r.y, r.width, r.height)
}

#[test]
fn two_files_split_horizontally() {
    let root = dir("r", vec![file("a", 300), file("b", 100)]);
    let rects = create_treemap_layout(&root, 0, 0, 400, 100, 0);
    assert_eq!(rects.len(), 2);
    assert_eq!(rects[0].name, "a");
    assert_eq!(geometry(&rects[0]), (0, 0, 300, 100));
    assert_eq!(rects[0].size, 300);
    assert_eq!(rects[0].depth, 1);
    assert_eq!(rects[1].name, "b");
    assert_eq!(geometry(&rects[1]), (300, 0, 100, 100));
    assert_eq!(rects[1].depth, 1);
}

#[test]
fn empty_directory_is_one_rectangle() {
    let root = dir("empty", vec![]);
    let rects = create_treemap_layout(&root, 0, 0, 100, 50, 0);
    assert_eq!(rects.len(), 1);
    assert_eq!(geometry(&rects[0]), (0, 0, 100, 50));
    assert_eq!(rects[0].size, 0);
    assert_eq!(rects[0].name, "empty");
    assert_eq!(rects[0].depth, 0);
}

#[test]
fn tall_container_splits_vertically_largest_first() {
    let root = dir("r", vec![file("small", 100), file("big", 300)]);
    let rects = create_treemap_layout(&root, 10, 20, 100, 400, 0);
    assert_eq!(rects.len(), 2);
    assert_eq!(rects[0].name, "big");
    assert_eq!(geometry(&rects[0]), (10, 20, 100, 300));
    assert_eq!(rects[1].name, "small");
    assert_eq!(geometry(&rects[1]), (10, 320, 100, 100));
}

#[test]
fn zero_size_children_get_no_rectangle() {
    let root = dir("r", vec![file("z", 0), file("a", 5), dir("e", vec![])]);
    let rects = create_treemap_layout(&root, 0, 0, 90, 30, 0);
    assert_eq!(rects.len(), 1);
    assert_eq!(rects[0].name, "a");
    assert_eq!(geometry(&rects[0]), (0, 0, 90, 30));
}

#[test]
fn equal_sizes_keep_scan_order() {
    let root = dir("r", vec![file("first", 10), file("second", 10), file("third", 10)]);
    let rects = create_treemap_layout(&root, 0, 0, 300, 10, 0);
    let names: Vec<&str> = rects.iter().map(|r| r.name.as_str()).collect();
    assert_eq!(names, vec!["first", "second", "third"]);
    // each takes remaining * size / total, the last what is left
    assert_eq!(geometry(&rects[0]), (0, 0, 100, 10));
    assert_eq!(geometry(&rects[1]), (100, 0, 66, 10));
    assert_eq!(geometry(&rects[2]), (166, 0, 134, 10));
}

#[test]
fn children_tile_the_container() {
    let root = dir(
        "r",
        vec![file("a", 7), file("b", 13), file("c", 1), file("d", 29), file("e", 3)],
    );
    let rects = create_treemap_layout(&root, 5, 7, 1200, 800, 0);
    assert_eq!(rects.len(), 5);
    let mut x = 5;
    for r in &rects {
        assert_eq!(r.x, x);
        assert_eq!(r.y, 7);
        assert_eq!(r.height, 800);
        x += r.width;
    }
    assert_eq!(x, 5 + 1200);
}

#[test]
fn nested_directories_go_one_level_deeper() {
    let inner = dir("inner", vec![file("x", 60), file("y", 20)]);
    let root = dir("r", vec![inner, file("z", 20)]);
    let rects = create_treemap_layout(&root, 0, 0, 200, 100, 0);
    assert_eq!(rects.len(), 3);
    // root splits left to right: inner gets 200 * 80 / 100, z the rest
    assert_eq!(rects[0].name, "x");
    assert_eq!(rects[0].depth, 2);
    assert_eq!(rects[1].name, "y");
    assert_eq!(rects[2].name, "z");
    assert_eq!(rects[2].depth, 1);
    assert_eq!(geometry(&rects[2]), (160, 0, 40, 100));
    // inner is 160 by 100, split left to right again
    assert_eq!(geometry(&rects[0]), (0, 0, 120, 100));
    assert_eq!(geometry(&rects[1]), (120, 0, 40, 100));
}

#[test]
fn layout_is_deterministic() {
    let make = || dir("r", vec![file("a", 3), file("b", 3), dir("d", vec![file("c", 9)])]);
    let first = create_treemap_layout(&make(), 0, 0, 1200, 800, 0);
    let second = create_treemap_layout(&make(), 0, 0, 1200, 800, 0);
    assert_eq!(first.len(), second.len());
    for (p, q) in first.iter().zip(second.iter()) {
        assert_eq!(geometry(p), geometry(q));
        assert_eq!(p.name, q.name);
        assert_eq!(p.size, q.size);
        assert_eq!(p.depth, q.depth);
    }
}

#[test]
fn zero_width_container_is_one_rectangle() {
    let root = dir("r", vec![file("a", 300), file("b", 100)]);
    let rects = create_treemap_layout(&root, 0, 0, 0, 100, 0);
    assert_eq!(rects.len(), 1);
    assert_eq!(rects[0].name, "r");
    assert_eq!(rects[0].size, 400);
    assert_eq!(geometry(&rects[0]), (0, 0, 0, 100));
    let rects = create_treemap_layout(&root, 3, 4, 50, 0, 2);
    assert_eq!(rects.len(), 1);
    assert_eq!(geometry(&rects[0]), (3, 4, 50, 0));
    assert_eq!(rects[0].depth, 2);
}

#[test]
fn nested_layout_covers_the_canvas() {
    let inner = dir("inner", vec![file("x", 7), file("y", 5), dir("deep", vec![file("w", 3)])]);
    let root = dir("r", vec![inner, file("z", 11), file("zero", 0), file("q", 2)]);
    let rects = create_treemap_layout(&root, 0, 0, 1200, 800, 0);
    let area: u64 = rects.iter().map(|r| r.width * r.height).sum();
    assert_eq!(area, 1200 * 800);
    for r in &rects {
        assert!(r.x + r.width <= 1200 && r.y + r.height <= 800);
        assert!(r.name != "zero");
    }
}

#[test]
fn nested_layout_rectangles_do_not_overlap() {
    let a = dir("a", vec![file("a1", 9), file("a2", 4), dir("a3", vec![file("w", 6), file("v", 1)])]);
    let b = dir("b", vec![file("b1", 5), file("b2", 5)]);
    let root = dir("r", vec![a, b, file("c", 8)]);
    let rects = create_treemap_layout(&root, 0, 0, 1200, 800, 0);
    for i in 0..rects.len() {
        for j in (i + 1)..rects.len() {
            let (p, q) = (&rects[i], &rects[j]);
            let apart = p.x + p.width <= q.x
                || q.x + q.width <= p.x
                || p.y + p.height <= q.y
                || q.y + q.height <= p.y;
            assert!(apart, "{} overlaps {}", p.name, q.name);
        }
    }
}
