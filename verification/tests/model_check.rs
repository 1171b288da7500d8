use trgfa::{add_edge, deserialize, serialize, Gfa};

type Node = (String, char);
type Edge = (Node, Node, String);

/// A plain list of edges that follows the insertion rule step by step.
struct Plain {
    edges: Vec<Edge>,
}

impl Plain {
    fn successors(&self, n: &Node) -> Vec<Node> {
        self.edges.iter().filter(|e| &e.0 == n).map(|e| e.1.clone()).collect()
    }

    fn predecessors(&self, n: &Node) -> Vec<Node> {
        self.edges.iter().filter(|e| &e.1 == n).map(|e| e.0.clone()).collect()
    }

    fn insert(&mut self, a: Node, b: Node, w: &str) {
        let s1 = self.successors(&a);
        let s2 = self.successors(&b);
        let shared: Vec<Node> = s1.iter().filter(|z| s2.contains(z)).cloned().collect();
        if !shared.is_empty() {
            self.edges.retain(|e| !(e.0 == a && shared.contains(&e.1)));
            self.edges.push((a, b, w.to_string()));
            return;
        }
        let p1 = self.predecessors(&a);
        let p2 = self.predecessors(&b);
        let shared: Vec<Node> = p1.iter().filter(|x| p2.contains(x)).cloned().collect();
        if !shared.is_empty() {
            self.edges.retain(|e| !(e.1 == b && shared.contains(&e.0)));
            self.edges.push((a, b, w.to_string()));
            return;
        }
        if s1.iter().any(|y| p2.contains(y)) {
            return;
        }
        self.edges.push((a, b, w.to_string()));
    }
}

fn flip(c: char) -> char {
    if c == '+' {
        '-'
    } else {
        '+'
    }
}

/// A small generator of numbers, the same on every run.
struct Numbers(u64);

impl Numbers {
    fn next(&mut self, below: u64) -> u64 {
        self.0 = self.0.wrapping_mul(6364136223846793005).wrapping_add(1442695040888963407);
        (self.0 >> 33) % below
    }
}

fn edges_of(graph: &Gfa) -> Vec<Edge> {
    let mut edges = Vec::new();
    for e in 0..graph.edge_count() {
        let (s, t) = graph.endpoints(e).unwrap();
        let source = graph.segment(s).unwrap().clone();
        let target = graph.segment(t).unwrap().clone();
        edges.push((source, target, graph.overlap(e).unwrap().clone()));
    }
    edges
}

fn sorted(mut edges: Vec<Edge>) -> Vec<Edge> {
    edges.sort();
    edges
}

/// What a walk over the edges in this order writes.
fn written(edges: &[Edge]) -> Vec<Vec<String>> {
    let mut seen: Vec<(Node, Node)> = Vec::new();
    let mut out = Vec::new();
    for (a, b, w) in edges {
        if seen.contains(&(a.clone(), b.clone())) {
            continue;
        }
        out.push(vec![
            "L".to_string(),
            a.0.clone(),
            a.1.to_string(),
            b.0.clone(),
            b.1.to_string(),
            w.clone(),
        ]);
        seen.push(((b.0.clone(), flip(b.1)), (a.0.clone(), flip(a.1))));
    }
    out
}

#[test]
fn single_overlaps_match_the_plain_list() {
    let mut numbers = Numbers(7);
    for round in 0..40 {
        let mut graph = Gfa::new();
        let mut plain = Plain { edges: Vec::new() };
        let segments = 3 + numbers.next(6);
        for step in 0..60 {
            let a = (format!("s{}", numbers.next(segments)), if numbers.next(2) == 0 { '+' } else { '-' });
            let b = (format!("s{}", numbers.next(segments)), if numbers.next(2) == 0 { '+' } else { '-' });
            let w = format!("{}M", round * 100 + step);
            assert_eq!(add_edge(&mut graph, a.clone(), b.clone(), &w), Ok(()));
            plain.insert(a, b, &w);
            assert_eq!(sorted(edges_of(&graph)), sorted(plain.edges.clone()));
        }
        let edges = edges_of(&graph);
        assert_eq!(serialize(graph), written(&edges));
    }
}

#[test]
fn link_records_match_the_plain_list() {
    let mut numbers = Numbers(2020);
    for _ in 0..40 {
        let mut plain = Plain { edges: Vec::new() };
        let mut records: Vec<Vec<String>> = Vec::new();
        let mut others: Vec<Vec<String>> = Vec::new();
        let segments = 4 + numbers.next(12);
        for step in 0..80 {
            if numbers.next(5) == 0 {
                let other = vec!["S".to_string(), format!("s{}", step), "ACGT".to_string()];
                others.push(other.clone());
                records.push(other);
                continue;
            }
            let a = (format!("s{}", numbers.next(segments)), if numbers.next(2) == 0 { '+' } else { '-' });
            let b = (format!("s{}", numbers.next(segments)), if numbers.next(2) == 0 { '+' } else { '-' });
            let w = format!("{}M", step);
            records.push(vec![
                "L".to_string(),
                a.0.clone(),
                a.1.to_string(),
                b.0.clone(),
                b.1.to_string(),
                w.clone(),
            ]);
            plain.insert(a.clone(), b.clone(), &w);
            plain.insert((b.0, flip(b.1)), (a.0, flip(a.1)), &w);
        }
        let (graph, passed) = deserialize(&records).unwrap();
        assert_eq!(passed, others);
        let edges = edges_of(&graph);
        assert_eq!(sorted(edges.clone()), sorted(plain.edges.clone()));
        assert_eq!(serialize(graph), written(&edges));
    }
}
