use raytracer::obj_file::ObjError;
use raytracer::obj_format::{parse_obj_file, ObjFile};

fn texts(v: &[String]) -> Vec<&str> {
    v.iter().map(|s| s.as_str()).collect()
}

#[test]
fn later_object_of_a_name_replaces_the_earlier() {
    let text = "# comment\no cube\nv 1 2 3\nv 4 5 6\nvt 0.5 1\nf 1/1 2/1 1/1\no cube\nv 7 8 9\nf 1 1 1\n";
    let file = parse_obj_file(text).ok().unwrap();
    let cube = file.get_object("cube");
    assert_eq!(cube.vertices.len(), 1);
    assert_eq!(texts(&cube.vertices[0]), vec!["7", "8", "9"]);
    assert_eq!(cube.uv.len(), 0);
    assert_eq!(cube.faces.len(), 1);
    assert_eq!(cube.faces[0].a.vertex_index, 1);
    assert_eq!(cube.faces[0].a.uv_index, None);
}

#[test]
fn objects_hold_their_own_data() {
    let text = "o a\nv 1 2 3\nvt 0.25 0.75\nf 1/1/2 1/1 1//3\nvn 0 0 1\no b\nv 4 5 6\n";
    let file = ObjFile::read_from_string(text).ok().unwrap();
    let a = file.get_object("a");
    assert_eq!(texts(&a.vertices[0]), vec!["1", "2", "3"]);
    assert_eq!(texts(&a.uv[0]), vec!["0.25", "0.75"]);
    assert_eq!(a.faces[0].a.normal_index, Some(2));
    assert_eq!(a.faces[0].c.uv_index, None);
    assert_eq!(a.faces[0].c.normal_index, Some(3));
    let b = file.get_object("b");
    assert_eq!(texts(&b.vertices[0]), vec!["4", "5", "6"]);
}

#[test]
fn data_before_any_name_is_the_default_object() {
    let file = parse_obj_file("v 1 2 3\nf 1 1 1\n").ok().unwrap();
    assert_eq!(file.get_object("default").vertices.len(), 1);
}

#[test]
fn a_bad_line_is_named_in_the_error() {
    match parse_obj_file("o a\nv 1 2\n") {
        Err(ObjError::General(m)) => assert_eq!(m, "Unable to parse vertex on line: 1"),
        _ => panic!("expected an error"),
    }
    match parse_obj_file("o a\n\nvt 1\n") {
        Err(ObjError::General(m)) => assert_eq!(m, "Unable to parse texture vertex on line: 2"),
        _ => panic!("expected an error"),
    }
    match parse_obj_file("f 1 2\n") {
        Err(ObjError::General(m)) => assert_eq!(m, "Unable to parse face on line: 0"),
        _ => panic!("expected an error"),
    }
}

#[test]
fn data_before_the_first_name_joins_the_first_object() {
    let file = parse_obj_file("v 1 2 3\nvt 0 1\no a\nf 1 1 1\no b\nv 4 5 6\n").ok().unwrap();
    let a = file.get_object("a");
    assert_eq!(texts(&a.vertices[0]), vec!["1", "2", "3"]);
    assert_eq!(texts(&a.uv[0]), vec!["0", "1"]);
    assert_eq!(a.faces.len(), 1);
    let b = file.get_object("b");
    assert_eq!(b.vertices.len(), 1);
    assert_eq!(b.uv.len(), 0);
}

#[test]
fn object_mesh_plan_has_a_triangle_per_face() {
    let file = parse_obj_file("o a\nv 1 2 3\nv 4 5 6\nv 7 8 9\nvt 0 0\nf 1/1 2/5 3\nf 3 2 1\n").ok().unwrap();
    let plan = raytracer::mesh_build::plan_object_mesh(&file, "a").unwrap();
    assert!(plan.textures.is_empty());
    assert!(plan.missing_materials.is_empty());
    assert_eq!(plan.tris.len(), 2);
    let t = &plan.tris[0];
    assert_eq!((t.a, t.b, t.c), (0, 1, 2));
    assert_eq!((t.a_uv, t.b_uv, t.c_uv), (Some(0), None, None));
    assert_eq!(t.tex_key, None);
    assert_eq!((plan.tris[1].a, plan.tris[1].c), (2, 0));
    assert!(raytracer::mesh_build::plan_object_mesh(&file, "b").is_none());
}
