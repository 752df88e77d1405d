use std::borrow::Cow;

use dependency_graph::depmap::DependencyMap;
use dependency_graph::graph::{build_graph, Graph};

struct DotGraph<'g>(&'g Graph);

impl<'a, 'g: 'a> dot::Labeller<'a, usize, (usize, usize)> for DotGraph<'g> {
    fn graph_id(&'a self) -> dot::Id<'a> {
        dot::Id::new(self.0.graph_id()).unwrap()
    }
    fn node_id(&'a self, n: &usize) -> dot::Id<'a> {
        dot::Id::new(self.0.node_id(*n)).unwrap()
    }
    fn node_label(&'a self, n: &usize) -> dot::LabelText<'a> {
        assert!(*n < self.0.names().len());
        dot::LabelText::LabelStr(Cow::Borrowed(self.0.node_label(*n).as_str()))
    }
    fn edge_label(&'a self, _: &(usize, usize)) -> dot::LabelText<'a> {
        dot::LabelText::LabelStr(self.0.edge_label().into())
    }
}

impl<'a, 'g: 'a> dot::GraphWalk<'a, usize, (usize, usize)> for DotGraph<'g> {
    fn nodes(&'a self) -> dot::Nodes<'a, usize> {
        Cow::Owned(self.0.nodes())
    }
    fn edges(&'a self) -> dot::Edges<'a, (usize, usize)> {
        Cow::Borrowed(&self.0.edges()[..])
    }
    fn source(&'a self, e: &(usize, usize)) -> usize {
        self.0.source(e)
    }
    fn target(&'a self, e: &(usize, usize)) -> usize {
        self.0.target(e)
    }
}

fn render(g: &Graph) -> String {
    let mut out: Vec<u8> = Vec::new();
    dot::render(&DotGraph(g), &mut out).unwrap();
    String::from_utf8(out).unwrap()
}

fn count_declarations(text: &str) -> (usize, usize) {
    let edges = text.lines().filter(|l| l.contains("->")).count();
    let nodes = text.lines().filter(|l| l.contains("[label=") && !l.contains("->")).count();
    (nodes, edges)
}

#[test]
fn export_counts_match_graph() {
    let mut m = DependencyMap::new();
    m.insert("rustc_b".to_string(), vec!["rustc_a".to_string(), "rustc_b".to_string(), "rustc_a".to_string()]);
    m.insert("rustc_a".to_string(), vec!["rustc_c".to_string()]);
    m.insert("rustc_c".to_string(), vec![]);
    let g = build_graph(&m);
    let text = render(&g);
    assert_eq!(count_declarations(&text), (3, 4));
    assert!(text.contains("digraph example2"));
    assert!(text.contains("N1 -> N0"));
    assert!(text.contains("label=\"rustc_c\""));
    assert!(text.contains("&sube;"));
}

#[test]
fn export_empty_graph() {
    let g = build_graph(&DependencyMap::new());
    assert!(g.validate_ids().is_ok());
    let text = render(&g);
    assert!(text.contains("digraph example2"));
    assert_eq!(count_declarations(&text), (0, 0));
}
