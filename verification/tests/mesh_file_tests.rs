use raytracer::mesh_file::{mesh_file_sections, parse_mesh_faces, ParseMeshErr};

const MESH: &str = "\n  faces \n1 2 3\n 4 5 6 \nvertices\n1.0 2 3\n0 0 0\nfaces\n7 8 9\n";

#[test]
fn sections_run_from_their_header_to_the_other_header() {
    let (faces, vertices) = mesh_file_sections(MESH);
    assert_eq!(faces, vec!["1 2 3".to_string(), "4 5 6".to_string()]);
    assert_eq!(vertices, vec!["1.0 2 3".to_string(), "0 0 0".to_string()]);
}

#[test]
fn a_file_without_headers_has_empty_sections() {
    let (faces, vertices) = mesh_file_sections("1 2 3\n");
    assert!(faces.is_empty());
    assert!(vertices.is_empty());
}

#[test]
fn faces_are_read_from_the_face_section() {
    assert_eq!(parse_mesh_faces(MESH).ok().unwrap(), vec![(1, 2, 3), (4, 5, 6)]);
}

#[test]
fn the_first_bad_face_line_gives_the_error() {
    match parse_mesh_faces("faces\n1 2\n3 x 4\n") {
        Err(ParseMeshErr::InvalidFace(m)) => assert_eq!(m, "expected vertex 2"),
        other => panic!("unexpected {:?}", other),
    }
}
