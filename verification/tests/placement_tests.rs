use uring::mring::{encode_size, Body, Event, Executed, PSMRing, RingState, Service};
use uring::placement::{add_node, name, new, remove_node, MRingNode, Relocation};

fn node(id: &str, vnodes: &[u64]) -> MRingNode {
    MRingNode { id: id.to_string(), vnodes: vnodes.to_vec() }
}

fn moved(source: &str, destination: &str, vnodes: &[u64]) -> Relocation {
    Relocation { source: source.to_string(), destination: destination.to_string(), vnodes: vnodes.to_vec() }
}

fn check_balanced(size: u64, ring: &[MRingNode]) {
    let k = ring.len() as u64;
    let mut seen = vec![false; size as usize];
    let mut total = 0u64;
    for n in ring {
        let len = n.vnodes.len() as u64;
        assert!(len == size / k || len == (size + k - 1) / k, "size {} of {:?}", len, ring);
        total += len;
        for v in &n.vnodes {
            assert!(*v < size);
            assert!(!seen[*v as usize], "vnode {} twice", v);
            seen[*v as usize] = true;
        }
    }
    assert_eq!(total, size);
}

#[test]
fn strategy_is_called_continuous() {
    assert_eq!(name(), "continuous");
}

#[test]
fn first_node_owns_the_whole_ring() {
    assert_eq!(new(8, "A".to_string()), vec![node("A", &[0, 1, 2, 3, 4, 5, 6, 7])]);
    assert_eq!(new(0, "A".to_string()), vec![node("A", &[])]);
}

#[test]
fn add_second_node() {
    let ring = new(8, "A".to_string());
    let (next, relocations) = add_node(8, ring, "B".to_string());
    assert_eq!(next, vec![node("A", &[0, 1, 2, 3]), node("B", &[4, 5, 6, 7])]);
    assert_eq!(relocations, vec![moved("A", "B", &[4, 5, 6, 7])]);
}

#[test]
fn add_third_node_takes_from_both() {
    let ring = vec![node("A", &[0, 1, 2, 3]), node("B", &[4, 5, 6, 7])];
    let (next, relocations) = add_node(8, ring, "C".to_string());
    assert_eq!(next, vec![node("A", &[0, 1, 2]), node("B", &[4, 5, 6]), node("C", &[3, 7])]);
    assert_eq!(relocations, vec![moved("A", "C", &[3]), moved("B", "C", &[7])]);
}

#[test]
fn add_node_that_is_there_changes_nothing() {
    let ring = vec![node("A", &[0, 1]), node("B", &[2, 3])];
    let (next, relocations) = add_node(4, ring.clone(), "A".to_string());
    assert_eq!(next, ring);
    assert_eq!(relocations, vec![]);
}

#[test]
fn remove_node_hands_its_vnodes_to_the_others() {
    let ring = vec![node("A", &[0, 1, 2]), node("B", &[4, 5, 6]), node("C", &[3, 7])];
    let (next, relocations) = remove_node(8, ring, "B".to_string());
    assert_eq!(next, vec![node("A", &[0, 1, 2, 4]), node("C", &[3, 7, 5, 6])]);
    assert_eq!(relocations, vec![moved("B", "A", &[4]), moved("B", "C", &[5, 6])]);
}

#[test]
fn remove_node_that_is_not_there_changes_nothing() {
    let ring = vec![node("A", &[0, 1]), node("B", &[2, 3])];
    let (next, relocations) = remove_node(4, ring.clone(), "Z".to_string());
    assert_eq!(next, ring);
    assert_eq!(relocations, vec![]);
}

#[test]
fn remove_the_only_node_leaves_no_ring() {
    let (next, relocations) = remove_node(4, new(4, "A".to_string()), "A".to_string());
    assert_eq!(next, vec![]);
    assert_eq!(relocations, vec![]);
}

#[test]
fn more_nodes_than_vnodes() {
    let mut ring = new(2, "n0".to_string());
    for i in 1..5 {
        ring = add_node(2, ring, format!("n{}", i)).0;
        check_balanced(2, &ring);
    }
    assert_eq!(ring.len(), 5);
}

#[test]
fn rings_stay_balanced_under_joins_and_leaves() {
    for size in [1u64, 7, 8, 10, 64, 97] {
        let mut ring = new(size, "n0".to_string());
        check_balanced(size, &ring);
        for i in 1..9 {
            ring = add_node(size, ring, format!("n{}", i)).0;
            check_balanced(size, &ring);
        }
        for i in [3, 0, 8, 5, 1] {
            ring = remove_node(size, ring, format!("n{}", i)).0;
            check_balanced(size, &ring);
        }
        for i in [20, 21, 3] {
            ring = add_node(size, ring, format!("n{}", i)).0;
            check_balanced(size, &ring);
        }
        assert_eq!(ring.len(), 7);
    }
}

#[test]
fn relocations_are_the_difference_of_the_rings() {
    let size = 23u64;
    let mut ring = new(size, "n0".to_string());
    for i in 1..6 {
        let before = ring.clone();
        let (next, relocations) = add_node(size, ring, format!("n{}", i));
        for old in &before {
            let now = next.iter().find(|n| n.id == old.id).unwrap();
            let lost: Vec<u64> = old.vnodes.iter().copied().filter(|v| !now.vnodes.contains(v)).collect();
            let listed: Vec<u64> = relocations
                .iter()
                .filter(|r| r.source == old.id)
                .flat_map(|r| r.vnodes.clone())
                .collect();
            assert_eq!(lost, listed);
        }
        for r in &relocations {
            assert_eq!(r.destination, format!("n{}", i));
            let dest = next.iter().find(|n| n.id == r.destination).unwrap();
            assert!(r.vnodes.iter().all(|v| dest.vnodes.contains(v)));
        }
        let gained: usize = relocations.iter().map(|r| r.vnodes.len()).sum();
        assert_eq!(gained, next.last().unwrap().vnodes.len());
        ring = next;
    }
    let before = ring.clone();
    let (next, relocations) = remove_node(size, ring, "n2".to_string());
    let gone = before.iter().find(|n| n.id == "n2").unwrap();
    let listed: Vec<u64> = relocations.iter().flat_map(|r| r.vnodes.clone()).collect();
    assert_eq!(listed, gone.vnodes);
    for r in &relocations {
        assert_eq!(r.source, "n2");
        let dest = next.iter().find(|n| n.id == r.destination).unwrap();
        assert!(r.vnodes.iter().all(|v| dest.vnodes.contains(v)));
    }
}

#[test]
fn same_inputs_give_the_same_outputs() {
    let ring = vec![node("A", &[0, 1, 2, 9]), node("B", &[4, 5, 6]), node("C", &[3, 7, 8])];
    let one = add_node(10, ring.clone(), "D".to_string());
    let two = add_node(10, ring.clone(), "D".to_string());
    assert_eq!(format!("{:?}", one), format!("{:?}", two));
    let one = remove_node(10, ring.clone(), "A".to_string());
    let two = remove_node(10, ring, "A".to_string());
    assert_eq!(format!("{:?}", one), format!("{:?}", two));
}

fn fresh_state() -> RingState {
    RingState { size: None, nodes: None }
}

#[test]
fn bootstrap_with_ring() {
    let service = Service::new();
    let Executed { state, code, body, publish } =
        service.execute(fresh_state(), Event::SetSize { size: 8 });
    assert_eq!(code, 200);
    assert_eq!(body, Body::Size(8));
    assert_eq!(publish, Some(PSMRing::SetSize { size: 8, strategy: "continuous".to_string() }));
    let r = service.execute(state, Event::AddNode { node: "127.0.0.1:8080".to_string() });
    let whole = vec![node("127.0.0.1:8080", &[0, 1, 2, 3, 4, 5, 6, 7])];
    assert_eq!(r.code, 200);
    assert_eq!(r.body, Body::Nodes(whole.clone()));
    assert_eq!(
        r.publish,
        Some(PSMRing::NodeAdded {
            node: "127.0.0.1:8080".to_string(),
            strategy: "continuous".to_string(),
            next: whole.clone(),
            relocations: vec![],
        })
    );
    assert_eq!(r.state, RingState { size: Some(8), nodes: Some(whole) });
}

#[test]
fn service_adds_and_removes_nodes() {
    let service = Service::new();
    let state = service.execute(fresh_state(), Event::SetSize { size: 8 }).state;
    let state = service.execute(state, Event::AddNode { node: "A".to_string() }).state;
    let r = service.execute(state, Event::AddNode { node: "B".to_string() });
    let two = vec![node("A", &[0, 1, 2, 3]), node("B", &[4, 5, 6, 7])];
    assert_eq!(r.body, Body::Nodes(two.clone()));
    assert_eq!(
        r.publish,
        Some(PSMRing::NodeAdded {
            node: "B".to_string(),
            strategy: "continuous".to_string(),
            next: two.clone(),
            relocations: vec![moved("A", "B", &[4, 5, 6, 7])],
        })
    );
    let got = service.execute(r.state, Event::GetNodes);
    assert_eq!((got.code, got.body.clone(), got.publish.clone()), (200, Body::Nodes(two), None));
    let r = service.execute(got.state, Event::RemoveNode { node: "A".to_string() });
    let one = vec![node("B", &[4, 5, 6, 7, 0, 1, 2, 3])];
    assert_eq!(r.code, 200);
    assert_eq!(r.body, Body::Nodes(one.clone()));
    assert_eq!(
        r.publish,
        Some(PSMRing::NodeRemoved {
            node: "A".to_string(),
            strategy: "continuous".to_string(),
            next: one,
            relocations: vec![moved("A", "B", &[0, 1, 2, 3])],
        })
    );
}

#[test]
fn size_is_set_once() {
    let service = Service::new();
    let r = service.execute(fresh_state(), Event::GetSize);
    assert_eq!((r.code, r.body.clone()), (404, Body::Null));
    let r = service.execute(r.state, Event::SetSize { size: 8 });
    assert_eq!(r.code, 200);
    let r = service.execute(r.state, Event::GetSize);
    assert_eq!((r.code, r.body.clone()), (200, Body::Size(8)));
    let r = service.execute(r.state, Event::SetSize { size: 16 });
    assert_eq!((r.code, r.body.clone(), r.publish.clone()), (409, Body::Size(8), None));
    let r = service.execute(r.state, Event::GetSize);
    assert_eq!((r.code, r.body), (200, Body::Size(8)));
}

#[test]
fn ring_requests_need_a_size_and_a_ring() {
    let service = Service::new();
    let r = service.execute(fresh_state(), Event::AddNode { node: "A".to_string() });
    assert_eq!((r.code, r.body.clone()), (412, Body::Message("mring size not set".to_string())));
    assert_eq!(r.state, fresh_state());
    let r = service.execute(fresh_state(), Event::RemoveNode { node: "A".to_string() });
    assert_eq!((r.code, r.body.clone()), (412, Body::Message("mring size not set".to_string())));
    let sized = RingState { size: Some(4), nodes: None };
    let r = service.execute(sized.clone(), Event::RemoveNode { node: "A".to_string() });
    assert_eq!((r.code, r.body.clone()), (412, Body::Message("mring does not exist yet".to_string())));
    assert_eq!(r.state, sized);
    assert_eq!(r.publish, None);
    let r = service.execute(sized, Event::GetNodes);
    assert_eq!((r.code, r.body), (200, Body::Nodes(vec![])));
}

#[test]
fn ring_reads_are_local() {
    let service = Service::new();
    assert_eq!(service.is_local(&Event::GetSize), Ok(true));
    assert_eq!(service.is_local(&Event::GetNodes), Ok(true));
    assert_eq!(service.is_local(&Event::SetSize { size: 1 }), Ok(false));
    assert_eq!(service.is_local(&Event::AddNode { node: "A".to_string() }), Ok(false));
    assert_eq!(service.is_local(&Event::RemoveNode { node: "A".to_string() }), Ok(false));
}

#[test]
fn size_is_stored_as_eight_bytes_most_significant_first() {
    assert_eq!(encode_size(8), vec![0, 0, 0, 0, 0, 0, 0, 8]);
    assert_eq!(encode_size(0x0102_0304_0506_0708), vec![1, 2, 3, 4, 5, 6, 7, 8]);
    let service = Service::new();
    assert_eq!(service.size(Some(encode_size(8))), Some(8));
    assert_eq!(service.size(Some(encode_size(u64::MAX))), Some(u64::MAX));
    assert_eq!(service.size(Some(vec![0, 0, 0, 0, 0, 0, 1, 0, 9, 9])), Some(256));
    assert_eq!(service.size(Some(vec![0, 0, 0, 8])), None);
    assert_eq!(service.size(Some(vec![])), None);
    assert_eq!(service.size(None), None);
}
