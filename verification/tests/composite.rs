// Tests for the composite object: construction, upcast/downcast navigation,
// tie-breaking among same-typed components, and not-found behaviour.

use rust_object_algos::Component;
use rust_object_algos::Obj;
use rust_object_algos::TType;
use rust_object_algos::Tree;

fn to_ov(v: u64) -> Vec<u8> {
    v.to_le_bytes().to_vec()
}

fn leaf(k: TType, v: u64) -> Tree<TType, Vec<u8>> {
    Tree { k, v: to_ov(v), children: vec![] }
}

/// The diamond object used by several tests:
/// `A(v1) { D(v5) { B(v2) }, C(v4) { B(v3) } }` in preorder:
/// 0:A 1:D 2:B 3:C 4:B.
fn diamond() -> Obj {
    let at = TType { definition: to_ov(1) };
    let bt = TType { definition: to_ov(2) };
    let ct = TType { definition: to_ov(3) };
    let dt = TType { definition: to_ov(4) };
    let tree = Tree {
        k: at,
        v: to_ov(1),
        children: vec![
            Tree { k: dt, v: to_ov(5), children: vec![leaf(bt.clone(), 2)] },
            Tree { k: ct, v: to_ov(4), children: vec![leaf(bt, 3)] },
        ],
    };
    Obj::from_tree(tree)
}

#[test]
fn it_works() {
    let at = TType { definition: to_ov(1) };
    let bt = TType { definition: to_ov(2) };
    let ct = TType { definition: to_ov(3) };
    let dt = TType { definition: to_ov(4) };
    // a diamond problem'd inheritance structure
    let tree = Tree {
        k: at,
        v: to_ov(1),
        children: vec![
            Tree {
                k: dt.clone(),
                v: to_ov(5),
                children: vec![Tree { k: bt.clone(), v: to_ov(2), children: vec![] }],
            },
            Tree {
                k: ct.clone(),
                v: to_ov(4),
                children: vec![Tree { k: bt.clone(), v: to_ov(3), children: vec![] }],
            },
        ],
    };
    let obj = Obj::from_tree(tree);
    println!("{:?}", obj.map);
    assert_eq!(obj.upcast(&bt).unwrap().value(), &to_ov(2));
    assert_eq!(obj.upcast(&ct).unwrap().upcast(&bt).unwrap().value(), &to_ov(3));
    assert_eq!(obj.upcast(&ct).unwrap().downcast(&dt).unwrap().value(), &to_ov(5));
}

#[test]
fn preorder_layout() {
    let obj = diamond();
    assert_eq!(obj.components.len(), 5);
    let sizes: Vec<usize> =
        obj.components.iter().map(|e| e.total_descendent_count).collect();
    assert_eq!(sizes, vec![5, 2, 1, 2, 1]);
    let parents: Vec<usize> = obj.components.iter().map(|e| e.parent_index).collect();
    assert_eq!(parents, vec![0, 0, 1, 0, 3]);
    let values: Vec<Vec<u8>> =
        obj.components.iter().map(|e| e.value.clone()).collect();
    assert_eq!(values, vec![to_ov(1), to_ov(5), to_ov(2), to_ov(4), to_ov(3)]);
    // type index sorted by (key, component index); the duplicated key keeps
    // its two components mutually ordered by index
    let index: Vec<(Vec<u8>, usize)> =
        obj.map.iter().map(|(k, i)| (k.definition.clone(), *i)).collect();
    assert_eq!(
        index,
        vec![
            (to_ov(1), 0),
            (to_ov(2), 2),
            (to_ov(2), 4),
            (to_ov(3), 3),
            (to_ov(4), 1),
        ]
    );
}

#[test]
fn upcast_narrows_never_escapes() {
    let obj = diamond();
    let at = TType { definition: to_ov(1) };
    let bt = TType { definition: to_ov(2) };
    let ct = TType { definition: to_ov(3) };
    let c = obj.upcast(&ct).unwrap();
    assert_eq!(c.index, 3);
    // within C's subtree [3, 5): finds C's own B, not D's
    let b = c.upcast(&bt).unwrap();
    assert!(c.index <= b.index);
    assert!(b.index < c.index + obj.components[c.index].total_descendent_count);
    assert_eq!(b.value(), &to_ov(3));
    // the root's type lies outside C's subtree: a pure narrowing never
    // escapes upward
    assert!(c.upcast(&at).is_none());
}

#[test]
fn round_trip_unique_type() {
    let obj = diamond();
    let dt = TType { definition: to_ov(4) };
    // D occurs exactly once: the search returns the unique component with
    // the value it was built with
    let d = obj.upcast(&dt).unwrap();
    assert_eq!(d.index, 1);
    assert_eq!(d.value(), &to_ov(5));
}

#[test]
fn single_component_object() {
    let only = TType { definition: to_ov(7) };
    let obj = Obj::from_tree(leaf(only.clone(), 42));
    assert_eq!(obj.components.len(), 1);
    assert_eq!(obj.components[0].total_descendent_count, 1);
    assert_eq!(obj.components[0].parent_index, 0);
    let c = obj.upcast(&only).unwrap();
    assert_eq!(c.index, 0);
    assert_eq!(c.value(), &to_ov(42));
    // downcast to the component's own type lands on itself
    let again = c.downcast(&only).unwrap();
    assert_eq!(again.index, 0);
}

#[test]
fn not_found_at_every_scope() {
    let obj = diamond();
    let ct = TType { definition: to_ov(3) };
    let missing = TType { definition: to_ov(9) };
    assert!(obj.get(&missing).is_none());
    assert!(obj.get_within(&missing, 0, 5).is_none());
    assert!(obj.upcast(&missing).is_none());
    let c = obj.upcast(&ct).unwrap();
    assert!(c.upcast(&missing).is_none());
    assert!(c.downcast(&missing).is_none());
    let root = Component { parent: &obj, index: 0 };
    assert!(root.upcast(&missing).is_none());
    assert!(root.downcast(&missing).is_none());
}

#[test]
fn queries_are_idempotent() {
    let obj = diamond();
    let bt = TType { definition: to_ov(2) };
    let ct = TType { definition: to_ov(3) };
    let dt = TType { definition: to_ov(4) };
    let first = obj.upcast(&bt).unwrap();
    let second = obj.upcast(&bt).unwrap();
    assert_eq!(first.index, second.index);
    assert_eq!(first.value(), second.value());
    let c1 = obj.upcast(&ct).unwrap().downcast(&dt).unwrap();
    let c2 = obj.upcast(&ct).unwrap().downcast(&dt).unwrap();
    assert_eq!(c1.index, c2.index);
    assert_eq!(c1.value(), c2.value());
    assert_eq!(obj.get(&bt), obj.get(&bt));
    assert_eq!(obj.get_within(&bt, 3, 5), obj.get_within(&bt, 3, 5));
}

#[test]
fn get_and_get_within_windows() {
    let obj = diamond();
    let bt = TType { definition: to_ov(2) };
    // first type-index entry with key B is at map position 1 (component 2)
    assert_eq!(obj.get(&bt), Some(1));
    assert_eq!(obj.map[1].1, 2);
    // restricted to C's subtree [3, 5): the later B at component 4
    let m = obj.get_within(&bt, 3, 5).unwrap();
    assert_eq!(obj.map[m].1, 4);
    // an empty window never matches
    assert!(obj.get_within(&bt, 3, 3).is_none());
    assert!(obj.get_within(&bt, 5, 5).is_none());
}

#[test]
fn downcast_prefers_nearest_ancestor() {
    let obj = diamond();
    let bt = TType { definition: to_ov(2) };
    let ct = TType { definition: to_ov(3) };
    let dt = TType { definition: to_ov(4) };
    // from C's own B (component 4): no D below, none under C, so the climb
    // reaches the root and returns the first D of the whole object
    let b_in_c = obj.upcast(&ct).unwrap().upcast(&bt).unwrap();
    assert_eq!(b_in_c.index, 4);
    let d = b_in_c.downcast(&dt).unwrap();
    assert_eq!(d.index, 1);
    assert_eq!(d.value(), &to_ov(5));
    // from D's B (component 2), the climb to the root finds C
    let b_in_d = obj.upcast(&bt).unwrap();
    assert_eq!(b_in_d.index, 2);
    let c = b_in_d.downcast(&ct).unwrap();
    assert_eq!(c.index, 3);
    assert_eq!(c.value(), &to_ov(4));
    // downcast to the cursor's own type stays put
    let same = b_in_d.downcast(&bt).unwrap();
    assert_eq!(same.index, 2);
}

#[test]
fn downcast_returns_enclosing_component_on_a_chain() {
    // A(1) -> B(2) -> C(3): every type occurs once, all on one chain
    let at = TType { definition: to_ov(1) };
    let bt = TType { definition: to_ov(2) };
    let ct = TType { definition: to_ov(3) };
    let tree = Tree {
        k: at.clone(),
        v: to_ov(10),
        children: vec![Tree {
            k: bt.clone(),
            v: to_ov(20),
            children: vec![leaf(ct.clone(), 30)],
        }],
    };
    let obj = Obj::from_tree(tree);
    let c = obj.upcast(&ct).unwrap();
    assert_eq!(c.index, 2);
    let a = c.downcast(&at).unwrap();
    assert_eq!(a.index, 0);
    assert_eq!(a.value(), &to_ov(10));
    // the result encloses the cursor: c.index within a's subtree range
    assert!(a.index <= c.index);
    assert!(c.index < a.index + obj.components[a.index].total_descendent_count);
    let b = c.downcast(&bt).unwrap();
    assert_eq!(b.index, 1);
    assert_eq!(b.value(), &to_ov(20));
}

#[test]
fn byte_keys_order_lexicographically() {
    // keys "a" < "ab" < "b" in the lexicographic order on bytes
    let ka = TType { definition: vec![0x61] };
    let kab = TType { definition: vec![0x61, 0x62] };
    let kb = TType { definition: vec![0x62] };
    let tree = Tree {
        k: kb.clone(),
        v: vec![0],
        children: vec![leaf(kab.clone(), 1), leaf(ka.clone(), 2)],
    };
    let obj = Obj::from_tree(tree);
    // preorder: 0:"b" 1:"ab" 2:"a"; sorted index: "a"(2), "ab"(1), "b"(0)
    let index: Vec<(Vec<u8>, usize)> =
        obj.map.iter().map(|(k, i)| (k.definition.clone(), *i)).collect();
    assert_eq!(
        index,
        vec![
            (vec![0x61], 2),
            (vec![0x61, 0x62], 1),
            (vec![0x62], 0),
        ]
    );
    assert_eq!(obj.get(&ka), Some(0));
    assert_eq!(obj.get(&kab), Some(1));
    assert_eq!(obj.get(&kb), Some(2));
    assert_eq!(obj.upcast(&ka).unwrap().value(), &to_ov(2));
    assert_eq!(obj.upcast(&kab).unwrap().value(), &to_ov(1));
    assert_eq!(obj.upcast(&kb).unwrap().value(), &vec![0u8]);
}
