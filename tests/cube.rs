use obj::{FloatLit, IndexTuple, ObjData};

const SQUARE: &str = "
v 0 1 0
v 0 0 0
v 1 0 0
v 1 1 0
f 1 2 3 4
";

const SQUARE_VBO: &[[f32; 3]] = &[[0., 1., 0.], [0., 0., 0.], [1., 0., 0.], [1., 1., 0.]];

fn to_f32(v: &FloatLit) -> f32 {
    v.as_str().parse::<f32>().unwrap()
}

fn positions(data: &ObjData) -> Vec<[f32; 3]> {
    data.position.iter().map(|p| [to_f32(&p[0]), to_f32(&p[1]), to_f32(&p[2])]).collect()
}

#[test]
fn test_load_square() {
    let obj = ObjData::load_buf(SQUARE).unwrap();

    let v = positions(&obj);
    assert_eq!(v.len(), SQUARE_VBO.len());
    for (a, b) in v.iter().zip(SQUARE_VBO.iter()) {
        assert_eq!(a, b);
    }

    for o in obj.objects.iter() {
        for g in o.groups.iter() {
            for poly in g.polys.iter() {
                let p = poly.clone().into_genmesh();
                match p {
                    genmesh::Polygon::PolyQuad(q) => {
                        assert_eq!(q.x, IndexTuple(0, None, None));
                        assert_eq!(q.w, IndexTuple(3, None, None));
                        let corners: Vec<[f32; 3]> =
                            [q.x, q.y, q.z, q.w].iter().map(|t| v[t.0]).collect();
                        assert_eq!(corners, SQUARE_VBO.to_vec());
                    }
                    genmesh::Polygon::PolyTri(_) => panic!("expected a quad"),
                }
            }
        }
    }
}

const CUBE: &str = "
v 0 1 1
v 0 0 1
v 1 0 1
v 1 1 1
v 0 1 0
v 0 0 0
v 1 0 0
v 1 1 0
# 8 vertices

o cube
g front cube
f 1 2 3 4
g back cube
f 8 7 6 5
g right cube
f 4 3 7 8
g top cube
f 5 1 4 8
g left cube
f 5 6 2 1
g bottom cube
f 2 6 7 3
# 6 elements
";

const CUBE_VBO: &[[f32; 3]] = &[
    [0., 1., 1.],
    [0., 0., 1.],
    [1., 0., 1.],
    [1., 1., 1.],
    [0., 1., 0.],
    [0., 0., 0.],
    [1., 0., 0.],
    [1., 1., 0.],
];

const CUBE_NAMES: &[&str] =
    &["front cube", "back cube", "right cube", "top cube", "left cube", "bottom cube"];

// Every `o` line closes the object before it, so the object that precedes `o cube` (the
// `default` one, here without groups) is kept too: the objects are `default`, then `cube`.
#[test]
fn test_load_cube() {
    let obj = ObjData::load_buf(CUBE).unwrap();

    let v = positions(&obj);
    assert_eq!(v, CUBE_VBO.to_vec());

    // The object before `o cube` is closed too; it holds no group.
    assert_eq!(obj.objects.len(), 2);
    assert_eq!(obj.objects[0].name, "default");
    assert!(obj.objects[0].groups.is_empty());
    let cube = &obj.objects[1];
    assert_eq!(cube.name, "cube");
    assert_eq!(cube.groups.len(), CUBE_NAMES.len());
    for (g, &name) in cube.groups.iter().zip(CUBE_NAMES.iter()) {
        assert_eq!(name, g.name);
        assert_eq!(g.index, 0);
        assert_eq!(g.polys.len(), 1);
    }
}

const CUBE_NEGATIVE_VBO: &[[f32; 3]] = &[
    [0., 1., 1.],
    [0., 0., 1.],
    [1., 0., 1.],
    [1., 1., 1.],
    [1., 1., 0.],
    [1., 0., 0.],
    [0., 0., 0.],
    [0., 1., 0.],
    [1., 1., 1.],
    [1., 0., 1.],
    [1., 0., 0.],
    [1., 1., 0.],
    [0., 1., 0.],
    [0., 1., 1.],
    [1., 1., 1.],
    [1., 1., 0.],
    [0., 1., 0.],
    [0., 0., 0.],
    [0., 0., 1.],
    [0., 1., 1.],
    [0., 0., 1.],
    [0., 0., 0.],
    [1., 0., 0.],
    [1., 0., 1.],
];

const CUBE_NEGATIVE: &str = "
v 0 1 1
v 0 0 1
v 1 0 1
v 1 1 1
f -4 -3 -2 -1

v 1 1 0
v 1 0 0
v 0 0 0
v 0 1 0
f -4 -3 -2 -1

v 1 1 1
v 1 0 1
v 1 0 0
v 1 1 0
f -4 -3 -2 -1

v 0 1 0
v 0 1 1
v 1 1 1
v 1 1 0
f -4 -3 -2 -1

v 0 1 0
v 0 0 0
v 0 0 1
v 0 1 1
f -4 -3 -2 -1

v 0 0 1
v 0 0 0
v 1 0 0
v 1 0 1
f -4 -3 -2 -1
";

#[test]
fn test_load_cube_negative() {
    let obj = ObjData::load_buf(CUBE_NEGATIVE).unwrap();

    let v = positions(&obj);
    assert_eq!(v.len(), CUBE_NEGATIVE_VBO.len());
    for (a, b) in v.iter().zip(CUBE_NEGATIVE_VBO.iter()) {
        assert_eq!(a, b);
    }

    let polys = &obj.objects[0].groups[0].polys;
    assert_eq!(polys.len(), 6);
    for (k, p) in polys.iter().enumerate() {
        let expected: Vec<IndexTuple> = (0..4).map(|j| IndexTuple(4 * k + j, None, None)).collect();
        assert_eq!(p.0, expected);
    }
}
