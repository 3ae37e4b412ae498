use raytracer::wavefront::{parse_obj_file, ObjFile};
use raytracer::ObjParseError;

fn s(x: &str) -> String {
    x.to_string()
}

#[test]
fn objects_and_triangles() {
    let text = "# cube\nv 0 0 0\no first\nv 1 2 3\nv 4 5 6\nv 7 8 9\nf 1 2 3\no second\nv 0 0 1\nf 1 1 1\no first\nv 9 9 9\n";
    let file = ObjFile::read_from_string(text).unwrap();
    let tris = file.make_triangle_list("first").unwrap();
    assert_eq!(tris.len(), 1);
    // The vertex read before the first name belongs to the first object.
    assert_eq!(tris[0][0], [s("0"), s("0"), s("0")]);
    assert_eq!(tris[0][2], [s("4"), s("5"), s("6")]);
    let tris = file.make_triangle_list("second").unwrap();
    assert_eq!(tris, vec![[[s("0"), s("0"), s("1")], [s("0"), s("0"), s("1")], [s("0"), s("0"), s("1")]]]);
    assert!(file.make_triangle_list("third").is_none());
}

#[test]
fn bad_lines_fail() {
    assert!(matches!(parse_obj_file("o a\nv 1 2\n"), Err(ObjParseError::ParserError("expected triple"))));
    assert!(matches!(parse_obj_file("o a\nvt 0.5 0.5\n"), Err(ObjParseError::ParserError("expected triple"))));
    assert!(matches!(parse_obj_file("o a\nf 1 2 x\n"), Err(ObjParseError::ParserError("expected triple"))));
    assert!(parse_obj_file("s 1\n\n# f\n").is_ok());
}
