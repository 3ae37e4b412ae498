use raytracer::{parse_face_line, parse_triple, try_parse_elements, ObjParseError, ParseMeshErr, TriVertex, VertexParseError};

#[test]
fn vertex_forms() {
    let v = TriVertex::from_str("7").unwrap();
    assert_eq!(v, TriVertex { vertex_index: 7, uv_index: None, normal_index: None });
    let v = TriVertex::from_str("1/2/3").unwrap();
    assert_eq!(v, TriVertex { vertex_index: 1, uv_index: Some(2), normal_index: Some(3) });
    let v = TriVertex::from_str("4//6").unwrap();
    assert_eq!(v, TriVertex { vertex_index: 4, uv_index: None, normal_index: Some(6) });
    let v = TriVertex::from_str("+4/5").unwrap();
    assert_eq!(v, TriVertex { vertex_index: 4, uv_index: Some(5), normal_index: None });
}

#[test]
fn vertex_errors() {
    assert!(matches!(TriVertex::from_str("1/2/3/4"), Err(VertexParseError::UnexpectedPartCount)));
    assert!(matches!(TriVertex::from_str(""), Err(VertexParseError::ParseIntError(_))));
    assert!(matches!(TriVertex::from_str("/2"), Err(VertexParseError::ParseIntError(_))));
    assert!(matches!(TriVertex::from_str("1/x/3/4"), Err(VertexParseError::ParseIntError(_))));
    assert!(matches!(TriVertex::from_str("-1"), Err(VertexParseError::ParseIntError(_))));
}

#[test]
fn face_elements() {
    let [a, b, c] = try_parse_elements("1/1 2/2 3/3").unwrap();
    assert_eq!((a.vertex_index, b.vertex_index, c.vertex_index), (1, 2, 3));
    assert_eq!(c.uv_index, Some(3));
    assert!(try_parse_elements("1 2").is_none());
    assert!(try_parse_elements("1 2 3 4").is_none());
    assert!(try_parse_elements("1  2 3").is_none());
    assert!(try_parse_elements("1 2 x").is_none());
}

#[test]
fn mesh_face_lines() {
    assert_eq!(parse_face_line("  3 4 5 ").unwrap(), (3, 4, 5));
    assert!(matches!(parse_face_line("x 4 5"), Err(ParseMeshErr::InvalidIndex(_))));
    assert!(matches!(parse_face_line("3"), Err(ParseMeshErr::InvalidFace("expected vertex 1"))));
    assert!(matches!(parse_face_line("3 4"), Err(ParseMeshErr::InvalidFace("expected vertex 2"))));
    assert!(matches!(parse_face_line("3 4 5 6"), Err(ParseMeshErr::InvalidFace("unexpected extra vertex"))));
    assert!(matches!(parse_face_line("3 4 y 6"), Err(ParseMeshErr::InvalidIndex(_))));
}

#[test]
fn triples() {
    assert_eq!(parse_triple("1 22 333").unwrap(), (1, 22, 333));
    assert!(matches!(parse_triple("1 2"), Err(ObjParseError::ParserError("expected triple"))));
    assert!(matches!(parse_triple("1 2 3 4"), Err(ObjParseError::ParserError("expected triple"))));
    assert!(matches!(parse_triple(" 1 2 3"), Err(ObjParseError::ParserError("expected triple"))));
}
