use id_tree_layout::Drawer;
use id_tree_layout::Embedder;
use id_tree_layout::LayoutTree;
use id_tree_layout::Layouter;
use id_tree_layout::PlacedTreeItem;
use id_tree_layout::SvgDrawer;

fn scenario_tree() -> LayoutTree {
    //      0
    //     / \
    //    1   2
    //   / \
    //  3   4
    let mut tree = LayoutTree::new();
    let root = tree.add_node("0".to_string(), false, None).unwrap();
    let n1 = tree.add_node("1".to_string(), false, Some(root)).unwrap();
    tree.add_node("2".to_string(), true, Some(root)).unwrap();
    tree.add_node("3".to_string(), false, Some(n1)).unwrap();
    tree.add_node("4".to_string(), false, Some(n1)).unwrap();
    tree
}

#[test]
fn svg_single_node_document() {
    let mut tree = LayoutTree::new();
    tree.add_node("0".to_string(), false, None).unwrap();
    let embedding = Embedder::embed(&tree);
    let drawer = SvgDrawer::new();
    let doc = drawer.draw(&embedding).unwrap();
    assert_eq!(
        doc,
        "<?xml version=\"1.0\" encoding=\"UTF-8\" ?>\n\
         <svg xmlns=\"http://www.w3.org/2000/svg\" version=\"1.1\" lang=\"en\" width=\"30\" height=\"60\">\n\
         \x20 <rect x=\"0\" y=\"0\" width=\"30\" height=\"60\" fill=\"white\"></rect>\n\
         \x20 <text x=\"15\" y=\"25\" style=\"font-family: 'Courier'; font-style: normal\">0</text></svg>"
    );
}

#[test]
fn svg_empty_tree_document() {
    let tree = LayoutTree::new();
    let doc = Layouter::new(&tree)
        .with_file_path("unused.svg")
        .write()
        .unwrap();
    assert_eq!(
        doc,
        "<?xml version=\"1.0\" encoding=\"UTF-8\" ?>\n\
         <svg xmlns=\"http://www.w3.org/2000/svg\" version=\"1.1\" lang=\"en\" width=\"10\" height=\"60\">\n\
         \x20 <rect x=\"0\" y=\"0\" width=\"10\" height=\"60\" fill=\"white\"></rect></svg>"
    );
}

#[test]
fn svg_escapes_labels() {
    let mut tree = LayoutTree::new();
    tree.add_node("a<b&c>\"d'e".to_string(), false, None).unwrap();
    let embedding = Embedder::embed(&tree);
    let doc = SvgDrawer::new().draw(&embedding).unwrap();
    assert!(doc.contains(">a&lt;b&amp;c&gt;&quot;d&apos;e</text>"));
}

#[test]
fn svg_emphasized_labels_are_bold() {
    let mut tree = LayoutTree::new();
    let root = tree.add_node("plain".to_string(), false, None).unwrap();
    tree.add_node("strong".to_string(), true, Some(root)).unwrap();
    let embedding = Embedder::embed(&tree);
    let doc = SvgDrawer::new().draw(&embedding).unwrap();
    assert!(doc.contains(
        "style=\"font-family: 'Courier'; font-weight: bold; font-style: normal\">strong</text>"
    ));
    assert!(doc.contains("style=\"font-family: 'Courier'; font-style: normal\">plain</text>"));
    // One line connects the two nodes.
    assert!(doc.contains("<line "));
    assert!(doc.contains("stroke=\"black\""));
}

#[test]
fn layouter_requires_file_path() {
    let tree = LayoutTree::new();
    let result = Layouter::new(&tree).write();
    let err = result.err().unwrap();
    assert_eq!(
        err.message(),
        "No output file name given - use Layouter::with_file_path."
    );
}

struct NilDrawer;

impl Drawer for NilDrawer {
    fn draw(&self, _embedding: &[PlacedTreeItem]) -> id_tree_layout::Result {
        Ok(String::new())
    }
}

#[test]
fn layouter_accepts_custom_drawer() {
    let mut tree = LayoutTree::new();
    tree.add_node("0".to_string(), false, None).unwrap();
    let drawer = NilDrawer;
    let doc = Layouter::new(&tree)
        .with_drawer(&drawer)
        .with_file_path("unused.svg")
        .write()
        .unwrap();
    assert_eq!(doc, "");
}

fn attr_val(elem: &str, name: &str) -> String {
    let pat = format!("{}=\"", name);
    let start = elem.find(&pat).unwrap() + pat.len();
    let rest = &elem[start..];
    let end = rest.find('"').unwrap();
    rest[..end].to_string()
}

fn unescape(s: &str) -> String {
    s.replace("&lt;", "<")
        .replace("&gt;", ">")
        .replace("&quot;", "\"")
        .replace("&apos;", "'")
        .replace("&amp;", "&")
}

/// The (label, level, center, emphasized) tuples encoded in the `text`
/// elements of a rendered document, in document order.
fn parse_texts(doc: &str) -> Vec<(String, i64, i64, bool)> {
    let mut out = Vec::new();
    for part in doc.split("<text ").skip(1) {
        let elem = &part[..part.find("</text>").unwrap()];
        let x: i64 = attr_val(elem, "x").parse().unwrap();
        let y: i64 = attr_val(elem, "y").parse().unwrap();
        let bold = attr_val(elem, "style").contains("bold");
        let label = unescape(&elem[elem.find('>').unwrap() + 1..]);
        let level = (y - 25) / 35;
        let center = (x - 10 + 5 * (label.chars().count() as i64)) / 10;
        out.push((label, level, center, bold));
    }
    out
}

/// The ((parent center, parent level), (child center, child level)) pairs
/// encoded in the `line` elements of a rendered document.
fn parse_lines(doc: &str) -> Vec<((i64, i64), (i64, i64))> {
    let mut out = Vec::new();
    for part in doc.split("<line ").skip(1) {
        let elem = &part[..part.find("></line>").unwrap()];
        let x1: i64 = attr_val(elem, "x1").parse().unwrap();
        let y1: i64 = attr_val(elem, "y1").parse().unwrap();
        let x2: i64 = attr_val(elem, "x2").parse().unwrap();
        let y2: i64 = attr_val(elem, "y2").parse().unwrap();
        out.push((((x1 - 10) / 10, (y1 - 35) / 35), ((x2 - 10) / 10, (y2 - 15) / 35)));
    }
    out
}

#[test]
fn svg_round_trip() {
    let tree = scenario_tree();
    let embedding = Embedder::embed(&tree);
    let doc = SvgDrawer::new().draw(&embedding).unwrap();

    // Re-parsing the text elements recovers label, level, center and
    // emphasis of every node, in document order.
    let texts = parse_texts(&doc);
    assert_eq!(texts.len(), embedding.len());
    for (parsed, item) in texts.iter().zip(embedding.iter()) {
        assert_eq!(parsed.0, item.text);
        assert_eq!(parsed.1, item.y_order as i64);
        assert_eq!(parsed.2, item.x_center as i64);
        assert_eq!(parsed.3, item.is_emphasized);
    }

    // Re-parsing the line elements recovers the parent links: for every
    // non-root node there is a line from its parent's position to its own.
    let lines = parse_lines(&doc);
    let non_roots: Vec<&PlacedTreeItem> =
        embedding.iter().filter(|e| e.parent.is_some()).collect();
    assert_eq!(lines.len(), non_roots.len());
    for (line, item) in lines.iter().zip(non_roots.iter()) {
        let parent = embedding
            .iter()
            .find(|e| e.ord == item.parent.unwrap())
            .unwrap();
        assert_eq!(line.0, (parent.x_center as i64, parent.y_order as i64));
        assert_eq!(line.1, (item.x_center as i64, item.y_order as i64));
    }
}
