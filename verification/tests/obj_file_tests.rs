use raytracer::mesh_build::{MeshFault, ObjMeshBuilder, TriPlan};
use raytracer::mtl_file::parse_mtl_file;
use raytracer::obj_file::{parse_obj_file, ObjError};

const CUBE: &str = "# a comment\nmtllib cube.mtl\no Cube\nv 1.0 -1 0.5\nv 0 0 0\nv 1e2 inf .5\nvt 0.25 0.75\nvn 0 1 0\ng side\nusemtl Red\nf 1/1 2/1 3\nf 3 2 1\ng top\nusemtl Blue\nf 1//1 2 3/1/1\n";

#[test]
fn obj_groups_and_faces() {
    let file = parse_obj_file(CUBE).unwrap();
    assert_eq!(file.mtllib.as_deref(), Some("cube.mtl"));
    assert_eq!(file.shared.vertices.len(), 3);
    assert_eq!(file.shared.vertices[0], ["1.0".to_string(), "-1".to_string(), "0.5".to_string()]);
    assert_eq!(file.shared.vertices[2], ["1e2".to_string(), "inf".to_string(), ".5".to_string()]);
    assert_eq!(file.shared.uv.len(), 1);
    assert_eq!(file.shared.uv[0], ["0.25".to_string(), "0.75".to_string()]);
    assert_eq!(file.groups.len(), 2);
    assert_eq!(file.groups[0].name, "side");
    assert_eq!(file.groups[0].faces.len(), 2);
    assert_eq!(file.groups[0].faces[0].a.vertex_index, 1);
    assert_eq!(file.groups[0].faces[0].a.uv_index, Some(1));
    assert_eq!(file.groups[0].faces[0].c.uv_index, None);
    assert_eq!(file.groups[0].faces[0].mtl.as_deref(), Some("Red"));
    assert_eq!(file.groups[1].name, "top");
    assert_eq!(file.groups[1].faces[0].mtl.as_deref(), Some("Blue"));
    assert_eq!(file.groups[1].faces[0].a.normal_index, Some(1));
    assert_eq!(file.groups[1].shared.vertices.len(), 3);
}

#[test]
fn obj_faces_before_any_group_are_default() {
    let file = parse_obj_file("v 0 0 0\nf 1 1 1").unwrap();
    assert_eq!(file.groups.len(), 1);
    assert_eq!(file.groups[0].name, "default");
    assert_eq!(file.groups[0].faces[0].mtl, None);
}

#[test]
fn obj_empty_group_is_dropped() {
    let file = parse_obj_file("g a\ng b\nf 1 2 3\n").unwrap();
    assert_eq!(file.groups.len(), 1);
    assert_eq!(file.groups[0].name, "b");
    let file = parse_obj_file("").unwrap();
    assert_eq!(file.groups.len(), 0);
    assert_eq!(file.mtllib, None);
}

#[test]
fn obj_errors_name_the_line() {
    match parse_obj_file("# x\nv 1 2\n") {
        Err(ObjError::General(m)) => assert_eq!(m, "Unable to parse vertex on line 1: 1 2"),
        _ => panic!("expected an error"),
    }
    match parse_obj_file("v 1 2 3\nvt 1 x\n") {
        Err(ObjError::General(m)) => assert_eq!(m, "Unable to parse texture vertex on line 1: 1 x"),
        _ => panic!("expected an error"),
    }
    match parse_obj_file("\n\n\nf 1 2\n") {
        Err(ObjError::General(m)) => assert_eq!(m, "Unable to parse face on line 3: 1 2"),
        _ => panic!("expected an error"),
    }
    match parse_obj_file("v  1 2 3") {
        Err(ObjError::General(m)) => assert_eq!(m, "Unable to parse vertex on line 0:  1 2 3"),
        _ => panic!("expected an error"),
    }
}

#[test]
fn obj_other_lines_are_skipped() {
    let file = parse_obj_file("v\t1 2 3\nvn x y\ns off\n  # v 1\nusemtl  Shiny  \r\nf 1 2 3\r\n").unwrap();
    assert_eq!(file.shared.vertices.len(), 0);
    assert_eq!(file.groups[0].faces[0].mtl.as_deref(), Some("Shiny"));
}

const MTL: &str = "Kd 0.5 0.5 0.5\nnewmtl Red\nKa 0.1 0.2 0.3\nKd 1 0 0\nmap_Kd  red.png \nnewmtl Blue\nKs 0 0 1\n";

#[test]
fn mtl_materials() {
    let mtl = parse_mtl_file(MTL).unwrap();
    assert_eq!(mtl.materials.len(), 2);
    let red = &mtl.materials[0];
    assert_eq!(red.name, "Red");
    assert_eq!(red.ambient_color, ["0.1".to_string(), "0.2".to_string(), "0.3".to_string()]);
    assert_eq!(red.diffuse_color, ["1".to_string(), "0".to_string(), "0".to_string()]);
    assert_eq!(red.specular_color, ["0".to_string(), "0".to_string(), "0".to_string()]);
    assert_eq!(red.diffuse_color_map.as_deref(), Some("red.png"));
    let blue = &mtl.materials[1];
    assert_eq!(blue.name, "Blue");
    assert_eq!(blue.diffuse_color, ["0".to_string(), "0".to_string(), "0".to_string()]);
    assert_eq!(blue.specular_color, ["0".to_string(), "0".to_string(), "1".to_string()]);
    assert_eq!(blue.diffuse_color_map, None);
}

#[test]
fn mtl_colors_before_first_material_carry_over() {
    let mtl = parse_mtl_file("Kd 0.5 0.5 0.5\nnewmtl A\n").unwrap();
    assert_eq!(mtl.materials[0].diffuse_color, ["0.5".to_string(), "0.5".to_string(), "0.5".to_string()]);
}

#[test]
fn mtl_errors_name_the_line() {
    match parse_mtl_file("newmtl A\nKs 1 2\n") {
        Err(ObjError::General(m)) => assert_eq!(m, "Unable to parse Ks on line 1: 1 2"),
        _ => panic!("expected an error"),
    }
    match parse_mtl_file("Ka a b c") {
        Err(ObjError::General(m)) => assert_eq!(m, "Unable to parse Ka on line 0: a b c"),
        _ => panic!("expected an error"),
    }
    match parse_mtl_file("\nKd 1 2 3 4") {
        Err(ObjError::General(m)) => assert_eq!(m, "Unable to parse Kd on line 1: 1 2 3 4"),
        _ => panic!("expected an error"),
    }
}

fn cube_builder() -> ObjMeshBuilder {
    let mut builder = ObjMeshBuilder::new();
    builder.add_groups(parse_obj_file(CUBE).unwrap().groups);
    builder.add_materials(parse_mtl_file("newmtl Blue\nKd 0 0 1\nnewmtl Green\nnewmtl Blue\nKd 0 0 0.5\n").unwrap());
    builder
}

#[test]
fn mesh_plan_of_all_groups() {
    let builder = cube_builder();
    assert_eq!(builder.group_names(), vec!["side".to_string(), "top".to_string()]);
    assert_eq!(builder.mesh_fault(None), None);
    let plan = builder.plan_mesh(None);
    // Only Blue is loaded, and the later Blue replaces the earlier one.
    assert_eq!(plan.textures, vec![2]);
    assert_eq!(plan.missing_materials, vec!["Red".to_string()]);
    assert_eq!(plan.tris.len(), 3);
    assert_eq!(plan.tris[0], TriPlan { group: 0, a: 0, b: 1, c: 2, a_uv: Some(0), b_uv: Some(0), c_uv: None, tex_key: None });
    assert_eq!(plan.tris[1], TriPlan { group: 0, a: 2, b: 1, c: 0, a_uv: None, b_uv: None, c_uv: None, tex_key: None });
    assert_eq!(plan.tris[2], TriPlan { group: 1, a: 0, b: 1, c: 2, a_uv: None, b_uv: None, c_uv: Some(0), tex_key: Some(0) });
}

#[test]
fn mesh_plan_of_one_group() {
    let builder = cube_builder();
    let plan = builder.plan_mesh(Some("top"));
    assert_eq!(plan.tris.len(), 1);
    assert_eq!(plan.tris[0].group, 1);
    assert_eq!(plan.textures, vec![2]);
    assert!(plan.missing_materials.is_empty());
}

#[test]
fn mesh_faults() {
    let builder = cube_builder();
    assert_eq!(builder.mesh_fault(Some("nothing")), Some(MeshFault::NoFaces));
    let mut bad = ObjMeshBuilder::new();
    bad.add_groups(parse_obj_file("v 0 0 0\nf 1 1 2\n").unwrap().groups);
    assert_eq!(bad.mesh_fault(None), Some(MeshFault::MissingVertex));
    let mut bad = ObjMeshBuilder::new();
    bad.add_groups(parse_obj_file("v 0 0 0\nvt 0 0\nf 1/0 1 1\n").unwrap().groups);
    assert_eq!(bad.mesh_fault(None), Some(MeshFault::UvIndexZero));
    let mut uv_out_of_range = ObjMeshBuilder::new();
    uv_out_of_range.add_groups(parse_obj_file("v 0 0 0\nvt 0 0\nf 1/2 1/1 1\n").unwrap().groups);
    assert_eq!(uv_out_of_range.mesh_fault(None), None);
    let plan = uv_out_of_range.plan_mesh(None);
    assert_eq!(plan.tris[0].a_uv, None);
    assert_eq!(plan.tris[0].b_uv, Some(0));
}
