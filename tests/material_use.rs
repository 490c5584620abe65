use obj::{ObjData, ObjMaterial};

fn material_name(m: &Option<ObjMaterial>) -> Option<String> {
    m.as_ref().map(|m| m.name().to_string())
}

const SQUARE: &str = "
v 0 0 0
v 1 1 1
v 1 0 1
v 0 1 0
usemtl test
g group_a
f 1 2 3
g group_b
f 1 4 2
";

// A `usemtl` before any `g` gives its material to the `default` group that it opens, and a
// group that `g` opens starts without a material: the material does not carry over to
// `group_a` and `group_b`.
#[test]
fn test_material_use_persistence() {
    let obj_data = ObjData::load_buf(SQUARE).unwrap();
    let groups = &obj_data.objects[0].groups;
    let names: Vec<&str> = groups.iter().map(|g| g.name.as_str()).collect();
    assert_eq!(names, vec!["default", "group_a", "group_b"]);
    assert_eq!(material_name(&groups[0].material), Some("test".to_string()));
    assert!(groups[0].polys.is_empty());
    assert_eq!(material_name(&groups[1].material), None);
    assert_eq!(material_name(&groups[2].material), None);
}

const SQUARE_PARTIAL_USEMTL: &str = "
v 0 0 0
v 1 1 1
v 1 0 1
v 0 1 0

g group_a
f 1 2 3

usemtl test
g group_b
f 1 4 2
";

// A `usemtl` on a group that has no material yet sets that group's material, polygons
// before it included, and the next `g` opens a group without a material.
#[test]
fn test_partial_material_use() {
    let obj_data = ObjData::load_buf(SQUARE_PARTIAL_USEMTL).unwrap();
    let groups = &obj_data.objects[0].groups;
    assert_eq!(groups.len(), 2);
    assert_eq!(material_name(&groups[0].material), Some("test".to_string()));
    assert_eq!(groups[0].polys.len(), 1);
    assert_eq!(material_name(&groups[1].material), None);
}

const TWO_MATERIALS: &str = "
v 0 0 0
v 1 1 1
v 1 0 1
v 0 1 0
g wall
usemtl brick
f 1 2 3
usemtl stone
f 1 4 2
f 2 3 4
";

#[test]
fn second_usemtl_splits_group() {
    let obj_data = ObjData::load_buf(TWO_MATERIALS).unwrap();
    let groups = &obj_data.objects[0].groups;
    assert_eq!(groups.len(), 2);
    assert_eq!(groups[0].name, "wall");
    assert_eq!(groups[1].name, "wall");
    assert_eq!(groups[0].index, 0);
    assert_eq!(groups[1].index, 1);
    assert_eq!(material_name(&groups[0].material), Some("brick".to_string()));
    assert_eq!(material_name(&groups[1].material), Some("stone".to_string()));
    assert_eq!(groups[0].polys.len(), 1);
    assert_eq!(groups[1].polys.len(), 2);
}
