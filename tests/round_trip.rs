use obj::{IndexTuple, ObjData, ObjMaterial, SimplePolygon, WriteToBuf};

fn write(data: &ObjData) -> String {
    let mut out = String::new();
    data.write_to_buf(&mut out);
    out
}

const RICH: &str = "
mtllib my lib.mtl
v 0 0 0
v 1 0 0
v 1 1 0
v 0 1 0
vt 0 0
vt 1 1
vn 0 0 1
o thing
g side a
usemtl red
f 1/1/1 2/2/1 3/1/1
usemtl blue
f 1//1 3//1 4//1
f 1/2 2/2 3/2
g other
f -4 -3 -2
o empty one
mtllib b.mtl
";

#[test]
fn round_trip_of_written_text() {
    let data = ObjData::load_buf(RICH).unwrap();
    let text = write(&data);
    let again = ObjData::load_buf(&text).unwrap();
    assert_eq!(again, data);
    assert_eq!(write(&again), text);
    let thing = &data.objects[1];
    assert_eq!(thing.groups.len(), 3);
    assert_eq!(thing.groups[1].index, 1);
    assert_eq!(thing.groups[1].polys.len(), 2);
}

#[test]
fn written_text_is_exact() {
    let data = ObjData::load_buf("v 1 2 3\nvt 0.5 1\nvn 0 0 -1\nf 1 1/1 1//1\n").unwrap();
    assert_eq!(write(&data), "v 1 2 3\nvt 0.5 1\nvn 0 0 -1\ng default\nf 1 1/1 1//1\n");
}

#[test]
fn split_groups_written_without_g() {
    let data = ObjData::load_buf(
        "v 0 0 0\no box\ng wall\nusemtl brick\nf 1 1 1\nusemtl stone\nf 1 1 1\nmtllib m.mtl\n",
    )
    .unwrap();
    assert_eq!(
        write(&data),
        "v 0 0 0\no box\ng wall\nusemtl brick\nf 1 1 1\nusemtl stone\nf 1 1 1\nmtllib m.mtl\n"
    );
}

#[test]
fn polygon_text() {
    let p = SimplePolygon(vec![
        IndexTuple(0, None, None),
        IndexTuple(9, Some(0), None),
        IndexTuple(2, None, Some(4)),
        IndexTuple(99, Some(10), Some(11)),
    ]);
    let mut out = String::from("#");
    p.write_to_buf(&mut out);
    assert_eq!(out, "#f 1 10/1 3//5 100/11/12\n");
}

#[test]
fn group_material_name_written() {
    let data = ObjData::load_buf("usemtl shiny\nv 0 0 0\nf 1 1 1\n").unwrap();
    let g = &data.objects[0].groups[0];
    assert!(matches!(&g.material, Some(ObjMaterial::Ref(n)) if n == "shiny"));
    assert_eq!(write(&data), "v 0 0 0\ng default\nusemtl shiny\nf 1 1 1\n");
}

#[test]
fn chained_groups_check() {
    let mut data = ObjData::load_buf("v 0 0 0\ng a\nusemtl x\nf 1 1 1\nusemtl y\nf 1 1 1\n").unwrap();
    assert!(data.groups_are_chained());
    data.objects[0].groups[1].name = String::from("b");
    assert!(!data.groups_are_chained());
    assert!(!data.objects[0].groups_are_chained());
}
