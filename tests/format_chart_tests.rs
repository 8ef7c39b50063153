use visfile::chart::select_chart_items;
use visfile::error::VisError;
use visfile::format::format_size;
use visfile::tree::DirNode;

#[test]
fn format_size_examples() {
    assert_eq!(format_size(0), "0 B");
    assert_eq!(format_size(1536), "1.5 KB");
    assert_eq!(format_size(1073741824), "1.0 GB");
}

#[test]
fn format_size_units() {
    assert_eq!(format_size(1023), "1023 B");
    assert_eq!(format_size(1024), "1.0 KB");
    assert_eq!(format_size(1048576), "1.0 MB");
    assert_eq!(format_size(1099511627776), "1.0 TB");
    assert_eq!(format_size(5 * 1099511627776 * 1024), "5120.0 TB");
    // 1280 bytes are exactly 1.25 KB: the half goes to the even digit
    assert_eq!(format_size(1280), "1.2 KB");
    assert_eq!(format_size(1331), "1.3 KB");
}

fn root_with(sizes: &[u64]) -> DirNode {
    let mut root = DirNode::new("root".to_string(), "/root".to_string(), false);
    for (i, s) in sizes.iter().enumerate() {
        let mut f = DirNode::new(format!("f{}", i), format!("/root/f{}", i), true);
        f.size = *s;
        root.add_child(f);
    }
    root.calculate_total_size();
    root
}

#[test]
fn chart_keeps_the_eight_largest() {
    let root = root_with(&[10, 20, 30, 40, 50, 60, 70, 80, 90, 100]);
    let items = select_chart_items(&root).unwrap();
    assert_eq!(items.len(), 8);
    let names: Vec<&str> = items.iter().map(|i| i.name.as_str()).collect();
    assert_eq!(names, vec!["f9", "f8", "f7", "f6", "f5", "f4", "f3", "f2"]);
    // total 550: shares are of the whole, not of the eight shown
    assert_eq!(items[0].size, 100);
    // 100 / 550 is 18.18%, 30 / 550 is 5.45%: shares are rounded down
    assert_eq!(items[0].percent_tenths, 181);
    assert_eq!(items[7].percent_tenths, 54);
    let sum: u64 = items.iter().map(|i| i.percent_tenths).sum();
    assert!(sum < 1000);
}

#[test]
fn chart_skips_zero_children() {
    let root = root_with(&[0, 3, 1]);
    let items = select_chart_items(&root).unwrap();
    assert_eq!(items.len(), 2);
    assert_eq!(items[0].name, "f1");
    assert_eq!(items[0].percent_tenths, 750);
    assert_eq!(items[1].percent_tenths, 250);
}

#[test]
fn chart_of_empty_directory_fails() {
    let root = root_with(&[0, 0]);
    assert_eq!(select_chart_items(&root).err(), Some(VisError::EmptyDirectory));
}

#[test]
fn chart_shares_stay_below_the_whole() {
    // nine nonzero children, the eight largest near an eighth each
    let root = root_with(&[12551, 12451, 12451, 12451, 12451, 12451, 12451, 12451, 292]);
    assert_eq!(root.size, 100000);
    let items = select_chart_items(&root).unwrap();
    assert_eq!(items.len(), 8);
    assert_eq!(items[0].percent_tenths, 125);
    assert_eq!(items[1].percent_tenths, 124);
    let sum: u64 = items.iter().map(|i| i.percent_tenths).sum();
    assert_eq!(sum, 993);
}
