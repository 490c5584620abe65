use obj::{ObjData, ObjMaterial};

const SQUARE: &str = "
v 0 0 0
v 1 1 1
v 1 0 1
v 0 1 0
usemtl test
g group_a
f 1 2 3
g group_b
f 1 4 2
";

// The material set before the first `g` stays with the `default` group; the groups that `g`
// opens start without one.
#[test]
fn material_use_persistence() {
    let obj_data = ObjData::load_buf(SQUARE).unwrap();
    let materials: Vec<Option<String>> = obj_data.objects[0]
        .groups
        .iter()
        .map(|g| match &g.material {
            Some(ObjMaterial::Ref(n)) => Some(n.clone()),
            Some(ObjMaterial::Mtl(m)) => Some(m.name.clone()),
            None => None,
        })
        .collect();
    assert_eq!(materials, vec![Some("test".to_string()), None, None]);
}
