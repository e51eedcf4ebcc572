use ray_tracer::graph::{GraphError, SceneGraph};

/// Translation along x only, enough to follow how transforms compose.
type Shift = f64;

/// The transforms the nesting tests use, as maps on points.
#[derive(Clone, Copy, Debug, PartialEq)]
enum Tf {
    Translate(f64, f64, f64),
    Scale(f64, f64, f64),
    RotateY(f64),
}

type P = (f64, f64, f64);

impl Tf {
    fn undo(self, p: P) -> P {
        match self {
            Tf::Translate(x, y, z) => (p.0 - x, p.1 - y, p.2 - z),
            Tf::Scale(x, y, z) => (p.0 / x, p.1 / y, p.2 / z),
            Tf::RotateY(r) => {
                let (s, c) = (-r).sin_cos();
                (p.0 * c + p.2 * s, p.1, -p.0 * s + p.2 * c)
            }
        }
    }
}

/// A world point in the frame of node `n`: undo the transforms from the root
/// down, outermost first.
fn world_to_object(g: &SceneGraph<Tf>, n: usize, p: P) -> P {
    g.world_chain(n).into_iter().fold(p, |q, tf| tf.undo(q))
}

fn assert_close(a: P, b: P) {
    let eps = 0.00001;
    assert!(
        (a.0 - b.0).abs() < eps && (a.1 - b.1).abs() < eps && (a.2 - b.2).abs() < eps,
        "{:?} != {:?}",
        a,
        b
    );
}

const IDENTITY: Tf = Tf::Scale(1.0, 1.0, 1.0);

fn world_x(g: &SceneGraph<Shift>, n: usize) -> f64 {
    g.world_chain(n).iter().sum()
}

#[test]
fn creating_a_new_group() {
    let mut g: SceneGraph<Shift> = SceneGraph::new();
    let group = g.insert(0.0, true);
    assert_eq!(g.transformation(group), 0.0);
    assert!(g.is_empty(group));
    assert!(g.is_group(group));
}

#[test]
fn shape_has_parent_attribute() {
    let mut g: SceneGraph<Shift> = SceneGraph::new();
    let s = g.insert(0.0, false);
    assert!(g.parent(s).is_none());
}

#[test]
fn adding_child_to_group() {
    let mut g: SceneGraph<Shift> = SceneGraph::new();
    let group = g.insert(0.0, true);
    let s = g.insert(0.0, false);
    assert_eq!(g.add_child(group, s), Ok(()));
    assert!(!g.is_empty(group));
    assert_eq!(g.parent(s), Some(group));
    assert_eq!(g.children(group), &vec![s]);
}

#[test]
fn updating_nested_group_transform_should_preserve_parent_contribution() {
    let mut g: SceneGraph<Shift> = SceneGraph::new();
    let g1 = g.insert(10.0, true);
    let g2 = g.insert(1.0, true);
    g.add_child(g1, g2).unwrap();
    let s = g.insert(0.5, false);
    g.add_child(g2, s).unwrap();
    assert_eq!(world_x(&g, s), 11.5);

    g.set_transform(g2, 2.0);
    assert_eq!(world_x(&g, s), 12.5);
}

#[test]
fn nesting_order_does_not_change_world_chain() {
    // insert first, then transform
    let mut first: SceneGraph<Shift> = SceneGraph::new();
    let h = first.insert(0.0, true);
    let gr = first.insert(0.0, true);
    let a = first.insert(0.0, false);
    first.add_child(gr, a).unwrap();
    first.add_child(h, gr).unwrap();
    first.set_transform(h, 100.0);
    first.set_transform(gr, 10.0);
    first.set_transform(a, 1.0);

    // transform first, then insert, outer link first
    let mut second: SceneGraph<Shift> = SceneGraph::new();
    let h2 = second.insert(100.0, true);
    let gr2 = second.insert(10.0, true);
    let a2 = second.insert(1.0, false);
    second.add_child(h2, gr2).unwrap();
    second.add_child(gr2, a2).unwrap();

    assert_eq!(first.path_to(a), vec![h, gr, a]);
    assert_eq!(second.path_to(a2), vec![h2, gr2, a2]);
    assert_eq!(first.world_chain(a), vec![100.0, 10.0, 1.0]);
    assert_eq!(second.world_chain(a2), vec![100.0, 10.0, 1.0]);
    assert_eq!(world_x(&first, a), 111.0);
    assert_eq!(first.root_of(a), h);
}

#[test]
fn add_child_errors() {
    let mut g: SceneGraph<Shift> = SceneGraph::new();
    let outer = g.insert(0.0, true);
    let inner = g.insert(0.0, true);
    let leaf = g.insert(0.0, false);
    let other = g.insert(0.0, false);
    assert_eq!(g.add_child(outer, 99), Err(GraphError::UnknownNode));
    assert_eq!(g.add_child(99, leaf), Err(GraphError::UnknownNode));
    assert_eq!(g.add_child(leaf, other), Err(GraphError::NotAGroup));
    g.add_child(outer, inner).unwrap();
    g.add_child(inner, leaf).unwrap();
    assert_eq!(g.add_child(outer, leaf), Err(GraphError::AlreadyAttached));
    assert_eq!(g.add_child(inner, outer), Err(GraphError::WouldCycle));
    assert_eq!(g.add_child(outer, outer), Err(GraphError::WouldCycle));
    assert_eq!(g.len(), 4);
    assert_eq!(g.children(outer), &vec![inner]);
}

#[test]
fn root_of_detached_node_is_itself() {
    let mut g: SceneGraph<Shift> = SceneGraph::new();
    let s = g.insert(3.0, false);
    assert_eq!(g.root_of(s), s);
    assert_eq!(g.path_to(s), vec![s]);
    assert_eq!(g.world_chain(s), vec![3.0]);
}

#[test]
fn converting_point_from_world_to_object_space() {
    let mut g: SceneGraph<Tf> = SceneGraph::new();
    let g1 = g.insert(IDENTITY, true);
    g.set_transform(g1, Tf::RotateY(std::f64::consts::PI / 2.0));
    let g2 = g.insert(IDENTITY, true);
    g.set_transform(g2, Tf::Scale(2.0, 2.0, 2.0));
    g.add_child(g1, g2).unwrap();
    let s = g.insert(IDENTITY, false);
    g.set_transform(s, Tf::Translate(5.0, 0.0, 0.0));
    g.add_child(g2, s).unwrap();

    let p = world_to_object(&g, s, (-2.0, 0.0, -10.0));
    assert_close(p, (0.0, 0.0, -1.0));
}

#[test]
fn set_transform_on_group_should_propagate_to_children() {
    let mut g: SceneGraph<Tf> = SceneGraph::new();
    let group = g.insert(IDENTITY, true);
    let s = g.insert(IDENTITY, false);
    g.set_transform(s, Tf::Translate(5.0, 0.0, 0.0));
    g.add_child(group, s).unwrap();

    assert_close(world_to_object(&g, s, (5.0, 0.0, 0.0)), (0.0, 0.0, 0.0));

    g.set_transform(group, Tf::Scale(2.0, 2.0, 2.0));
    assert_close(world_to_object(&g, s, (10.0, 0.0, 0.0)), (0.0, 0.0, 0.0));
}

#[test]
fn updating_child_transform_should_preserve_parent_contribution() {
    let mut g: SceneGraph<Shift> = SceneGraph::new();
    let group = g.insert(10.0, true);
    let s = g.insert(1.0, false);
    g.add_child(group, s).unwrap();
    assert_eq!(world_x(&g, s), 11.0);

    g.set_transform(s, 2.0);
    assert_eq!(world_x(&g, s), 12.0);
}

#[test]
fn attaching_a_subtree_prefixes_its_chains() {
    let mut g: SceneGraph<Shift> = SceneGraph::new();
    let outer = g.insert(100.0, true);
    let inner = g.insert(10.0, true);
    let leaf = g.insert(1.0, false);
    g.add_child(inner, leaf).unwrap();
    assert_eq!(g.world_chain(leaf), vec![10.0, 1.0]);
    g.add_child(outer, inner).unwrap();
    assert_eq!(g.world_chain(inner), vec![100.0, 10.0]);
    assert_eq!(g.world_chain(leaf), vec![100.0, 10.0, 1.0]);
    assert_eq!(g.world_chain(outer), vec![100.0]);
}
