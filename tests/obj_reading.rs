use obj::{normalize, words, FloatLit, IndexTuple, LoadConfig, ObjData, ObjError, SimplePolygon};

fn texts(v: &[FloatLit]) -> Vec<&str> {
    v.iter().map(|x| x.as_str()).collect()
}

#[test]
fn concrete_square_scenario() {
    let data = ObjData::load_buf("v 0 1 0\nv 0 0 0\nv 1 0 0\nv 1 1 0\nf 1 2 3 4").unwrap();
    assert_eq!(data.objects.len(), 1);
    assert_eq!(data.objects[0].name, "default");
    assert_eq!(data.objects[0].groups.len(), 1);
    let g = &data.objects[0].groups[0];
    assert_eq!(g.name, "default");
    assert_eq!(g.index, 0);
    assert!(g.material.is_none());
    assert_eq!(g.polys.len(), 1);
    assert_eq!(
        g.polys[0].0,
        vec![
            IndexTuple(0, None, None),
            IndexTuple(1, None, None),
            IndexTuple(2, None, None),
            IndexTuple(3, None, None)
        ]
    );
    let pos: Vec<Vec<f32>> = data
        .position
        .iter()
        .map(|p| p.iter().map(|x| x.as_str().parse::<f32>().unwrap()).collect())
        .collect();
    assert_eq!(pos, vec![vec![0., 1., 0.], vec![0., 0., 0.], vec![1., 0., 0.], vec![1., 1., 0.]]);
    assert!(data.texture.is_empty());
    assert!(data.normal.is_empty());
    assert!(data.material_libs.is_empty());
}

#[test]
fn relative_indices_count_back_from_face() {
    let text = "v 0 0 0\nv 1 0 0\nv 1 1 0\nv 0 1 0\nf -4 -3 -2 -1\nv 2 2 2\nv 3 3 3\nf -1 -2 -3\n";
    let data = ObjData::load_buf(text).unwrap();
    let polys = &data.objects[0].groups[0].polys;
    let first: Vec<usize> = polys[0].0.iter().map(|t| t.0).collect();
    assert_eq!(first, vec![0, 1, 2, 3]);
    let second: Vec<usize> = polys[1].0.iter().map(|t| t.0).collect();
    assert_eq!(second, vec![5, 4, 3]);
}

#[test]
fn texture_and_normal_indices() {
    let text = "v 0 0 0\nv 1 0 0\nv 1 1 0\nvt 0 0\nvt 1 0\nvn 0 0 1\nf 1/1/1 2/2/1 3//1\nf 1/2 2/-1 -1/1/-1\n";
    let data = ObjData::load_buf(text).unwrap();
    let polys = &data.objects[0].groups[0].polys;
    assert_eq!(
        polys[0].0,
        vec![IndexTuple(0, Some(0), Some(0)), IndexTuple(1, Some(1), Some(0)), IndexTuple(2, None, Some(0))]
    );
    assert_eq!(
        polys[1].0,
        vec![IndexTuple(0, Some(1), None), IndexTuple(1, Some(1), None), IndexTuple(2, Some(0), Some(0))]
    );
    assert_eq!(texts(&data.texture[1]), vec!["1", "0"]);
    assert_eq!(texts(&data.normal[0]), vec!["0", "0", "1"]);
}

#[test]
fn zero_index_is_rejected() {
    match ObjData::load_buf("f 0 1 2") {
        Err(ObjError::ZeroVertexNumber { line_number }) => assert_eq!(line_number, 0),
        other => panic!("unexpected result {:?}", other),
    }
    match ObjData::load_buf("v 1 1 1\nv 2 2 2\nv 3 3 3\nf 1 0 2\n") {
        Err(ObjError::ZeroVertexNumber { line_number }) => assert_eq!(line_number, 3),
        other => panic!("unexpected result {:?}", other),
    }
}

#[test]
fn malformed_face_group() {
    match ObjData::load_buf("v 1 1 1\nf x 1 1\n") {
        Err(ObjError::MalformedFaceGroup { line_number, group }) => {
            assert_eq!(line_number, 1);
            assert_eq!(group, "x");
        }
        other => panic!("unexpected result {:?}", other),
    }
    // A negative number that reaches before the first vertex.
    match ObjData::load_buf("v 1 1 1\nf -2 1 1\n") {
        Err(ObjError::MalformedFaceGroup { line_number, group }) => {
            assert_eq!(line_number, 1);
            assert_eq!(group, "-2");
        }
        other => panic!("unexpected result {:?}", other),
    }
}

#[test]
fn argument_list_failures() {
    match ObjData::load_buf("v 1 2\n") {
        Err(ObjError::ArgumentListFailure { line_number, list }) => {
            assert_eq!(line_number, 0);
            assert_eq!(list, "1 2");
        }
        other => panic!("unexpected result {:?}", other),
    }
    match ObjData::load_buf("vt 1 y 4\n") {
        Err(ObjError::ArgumentListFailure { list, .. }) => assert_eq!(list, "1 y"),
        other => panic!("unexpected result {:?}", other),
    }
    match ObjData::load_buf("v 1 1 1\nf 1 1\n") {
        Err(ObjError::ArgumentListFailure { line_number, list }) => {
            assert_eq!(line_number, 1);
            assert_eq!(list, "1 1");
        }
        other => panic!("unexpected result {:?}", other),
    }
}

#[test]
fn missing_mtl_name() {
    match ObjData::load_buf("v 1 1 1\n\nmtllib   \n") {
        Err(ObjError::MissingMTLName { line_number }) => assert_eq!(line_number, 2),
        other => panic!("unexpected result {:?}", other),
    }
}

#[test]
fn mtllib_name_keeps_spaces() {
    let data = ObjData::load_buf("mtllib  my   lib.mtl \nmtllib b.mtl\n").unwrap();
    let names: Vec<&str> = data.material_libs.iter().map(|m| m.filename.as_str()).collect();
    assert_eq!(names, vec!["my lib.mtl", "b.mtl"]);
    assert!(data.material_libs[0].materials.is_empty());
}

#[test]
fn objects_and_groups() {
    let text = "v 0 0 0\nf 1 1 1\no first\ng a\nf 1 1 1\ng\nf 1 1 1\no\ns 1\nl 1 2\n";
    let data = ObjData::load_buf(text).unwrap();
    let names: Vec<&str> = data.objects.iter().map(|o| o.name.as_str()).collect();
    assert_eq!(names, vec!["default", "first", "default"]);
    let first: Vec<&str> = data.objects[1].groups.iter().map(|g| g.name.as_str()).collect();
    assert_eq!(first, vec!["a", "default"]);
    assert_eq!(data.objects[0].groups.len(), 1);
    assert!(data.objects[2].groups.is_empty());
}

#[test]
fn unknown_command_in_strict_and_permissive_mode() {
    let text = "v 1 1 1\nadjf 0 1\nv 2 2 2\n";
    match ObjData::load_buf_with_config(text, LoadConfig { strict: true }) {
        Err(ObjError::UnexpectedCommand { line_number, command }) => {
            assert_eq!(line_number, 1);
            assert_eq!(command, "adjf");
        }
        other => panic!("unexpected result {:?}", other),
    }
    let loose = ObjData::load_buf_with_config(text, LoadConfig { strict: false }).unwrap();
    let plain = ObjData::load_buf("v 1 1 1\nv 2 2 2\n").unwrap();
    assert_eq!(loose, plain);
}

#[test]
fn default_config_is_strict() {
    let c: LoadConfig = Default::default();
    assert!(c.strict);
}

#[test]
fn float_literals() {
    for ok in ["1", "-1.5", "+2.", ".5", "1e3", "1.5E-3", "inf", "-Infinity", "NaN", "0.98480775301220813"] {
        assert!(FloatLit::parse(ok).is_some(), "{}", ok);
        assert_eq!(FloatLit::parse(ok).unwrap().as_str(), ok);
        assert!(ok.parse::<f32>().is_ok());
    }
    for bad in ["", ".", "e5", "1e", "1.2.3", "abc", "--1", "1,5", "in", "0x10"] {
        assert!(FloatLit::parse(bad).is_none(), "{}", bad);
        assert!(bad.parse::<f32>().is_err());
    }
}

#[test]
fn words_split_on_white_space() {
    assert_eq!(words("  f 1/2  3\t4\r"), vec!["f", "1/2", "3", "4"]);
    assert!(words("").is_empty());
    assert!(words(" \t ").is_empty());
    assert_eq!(words("a\u{3000}b"), vec!["a", "b"]);
}

#[test]
fn normalize_indices() {
    assert_eq!(normalize(1, 0), Some(0));
    assert_eq!(normalize(1, 1), Some(0));
    assert_eq!(normalize(5, 4), Some(4));
    assert_eq!(normalize(5, 10), Some(4));
    assert_eq!(normalize(3, 3), Some(2));
    assert_eq!(normalize(-1, 4), Some(3));
    assert_eq!(normalize(-4, 4), Some(0));
    assert_eq!(normalize(-5, 4), None);
    assert_eq!(normalize(0, 4), None);
    assert_eq!(normalize(isize::MIN, 4), None);
}

#[test]
fn genmesh_arity() {
    let tri = SimplePolygon(vec![IndexTuple(0, None, None), IndexTuple(1, None, None), IndexTuple(2, Some(1), None)]);
    match tri.clone().try_into_genmesh() {
        Ok(genmesh::Polygon::PolyTri(t)) => {
            assert_eq!(t.x, IndexTuple(0, None, None));
            assert_eq!(t.z, IndexTuple(2, Some(1), None));
        }
        other => panic!("unexpected result {:?}", other),
    }
    let five = SimplePolygon(vec![IndexTuple(0, None, None); 5]);
    match five.try_into_genmesh() {
        Err(ObjError::GenMeshWrongNumberOfVertsInPolygon { vert_count }) => assert_eq!(vert_count, 5),
        other => panic!("unexpected result {:?}", other),
    }
}

#[test]
fn carriage_returns_are_white_space() {
    let data = ObjData::load_buf("v 1 2 3\r\ng side\r\nf 1 1 1\r\n").unwrap();
    assert_eq!(data.objects[0].groups[0].name, "side");
    assert_eq!(data.position[0][2].as_str(), "3");
}

#[test]
fn zero_texture_or_normal_is_rejected() {
    let base = "v 0 0 0\nv 1 0 0\nv 1 1 0\nvt 0 0\nvn 0 0 1\n";
    for face in ["f 1/0/1 2 3", "f 1 2/1/0 3", "f 1 2 0/1"] {
        match ObjData::load_buf(&format!("{}{}", base, face)) {
            Err(ObjError::ZeroVertexNumber { line_number }) => assert_eq!(line_number, 5),
            other => panic!("unexpected result {:?} for {}", other, face),
        }
    }
}

#[test]
fn indices_must_name_declared_vertices() {
    match ObjData::load_buf("f 1 2 3\n") {
        Err(ObjError::MalformedFaceGroup { line_number, group }) => {
            assert_eq!(line_number, 0);
            assert_eq!(group, "1");
        }
        other => panic!("unexpected result {:?}", other),
    }
    let base = "v 0 0 0\nv 1 0 0\nv 1 1 0\nvt 0 0\n";
    for (face, field) in [("f 1 2 4", "4"), ("f 1/2 2 3", "1/2"), ("f 1//1 2 3", "1//1"), ("f 1/-2 2 3", "1/-2")] {
        match ObjData::load_buf(&format!("{}{}", base, face)) {
            Err(ObjError::MalformedFaceGroup { line_number, group }) => {
                assert_eq!(line_number, 4);
                assert_eq!(group, field);
            }
            other => panic!("unexpected result {:?} for {}", other, face),
        }
    }
    // A vertex declared after the face does not count for it.
    assert!(ObjData::load_buf("v 0 0 0\nf 1 2 1\nv 1 1 1\n").is_err());
}

#[test]
fn names_are_the_trimmed_rest_of_the_line() {
    let data = ObjData::load_buf("o  a  b \ng front\tcube\ng  \nv 0 0 0\nf 1 1 1\no \no  \t\n").unwrap();
    let names: Vec<&str> = data.objects.iter().map(|o| o.name.as_str()).collect();
    assert_eq!(names, vec!["default", "a  b", "default", "default"]);
    let groups: Vec<&str> = data.objects[1].groups.iter().map(|g| g.name.as_str()).collect();
    assert_eq!(groups, vec!["front\tcube", ""]);
    assert_eq!(data.objects[1].groups[1].polys.len(), 1);
}
