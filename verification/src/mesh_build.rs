use vstd::prelude::*;

use crate::mtl_file::{MaterialModel, MtlFile, ObjMaterial, material_views};
use crate::obj_file::{FaceModel, GroupModel, ObjGroup, texts};
use crate::obj_format::{ObjObjectModel, TriFace, object_names, slot_of};

verus! {

/// The groups and materials of loaded OBJ and MTL files, from which meshes are built.
pub struct ObjMeshBuilder {
    groups: Vec<ObjGroup>,
    materials: Vec<ObjMaterial>,
}

/// What a builder holds.
pub struct BuilderModel {
    pub groups: Seq<GroupModel>,
    pub materials: Seq<MaterialModel>,
}

/// The views of a list of groups.
pub open spec fn group_views(v: Seq<ObjGroup>) -> Seq<GroupModel> {
    v.map_values(|g: ObjGroup| g@)
}

impl View for ObjMeshBuilder {
    type V = BuilderModel;

    closed spec fn view(&self) -> BuilderModel {
        BuilderModel { groups: group_views(self.groups@), materials: material_views(self.materials@) }
    }
}

/// One triangle of a mesh to build: the group its face belongs to, the
/// (0-based) positions of its corners in that group's vertex list, those of
/// their texture coordinates (none where the face gives none, or one the list
/// does not have) and the position of its texture in the mesh's texture list.
#[derive(Clone, Copy, Debug, PartialEq, Eq, Structural)]
pub struct TriPlan {
    pub group: usize,
    pub a: usize,
    pub b: usize,
    pub c: usize,
    pub a_uv: Option<usize>,
    pub b_uv: Option<usize>,
    pub c_uv: Option<usize>,
    pub tex_key: Option<usize>,
}

/// A mesh to build: its textures (positions of materials in the builder), the
/// names of the materials that faces use but the builder does not have, and
/// its triangles.
pub struct MeshPlan {
    pub textures: Vec<usize>,
    pub missing_materials: Vec<String>,
    pub tris: Vec<TriPlan>,
}

/// Why no mesh can be built from the faces selected.
#[derive(Clone, Copy, Debug, PartialEq, Eq, Structural)]
pub enum MeshFault {
    /// A face refers to a vertex that its group's vertex list does not have.
    MissingVertex,
    /// A face gives texture coordinate 0 (they count from 1).
    UvIndexZero,
    /// No face is selected.
    NoFaces,
}

/// Group `g` takes part in a mesh built for `filter`: every group, or the
/// groups of the given name.
pub open spec fn selected(g: GroupModel, filter: Option<Seq<char>>) -> bool {
    match filter {
        None => true,
        Some(n) => g.name == n,
    }
}

/// The faces of the groups selected by `filter`, group by group and in order,
/// as (group position, face position) pairs.
pub open spec fn face_refs(groups: Seq<GroupModel>, filter: Option<Seq<char>>) -> Seq<(int, int)>
    decreases groups.len(),
{
    if groups.len() == 0 {
        seq![]
    } else {
        let k = groups.len() - 1;
        let rest = face_refs(groups.drop_last(), filter);
        if selected(groups[k], filter) {
            rest + Seq::new(groups[k].faces.len(), |j: int| (k, j))
        } else {
            rest
        }
    }
}

/// The face that a reference designates.
pub open spec fn face_at(groups: Seq<GroupModel>, r: (int, int)) -> FaceModel {
    groups[r.0].faces[r.1]
}

/// The material names that the referenced faces use, each once, in the order
/// they first occur.
pub open spec fn used_materials(groups: Seq<GroupModel>, refs: Seq<(int, int)>) -> Seq<Seq<char>>
    decreases refs.len(),
{
    if refs.len() == 0 {
        seq![]
    } else {
        let prev = used_materials(groups, refs.drop_last());
        match face_at(groups, refs.last()).mtl {
            Some(n) => if prev.contains(n) {
                prev
            } else {
                prev.push(n)
            },
            None => prev,
        }
    }
}

/// The position of the last material named `n` (a later material of the same
/// name replaces an earlier one).
pub open spec fn last_named(ms: Seq<MaterialModel>, n: Seq<char>) -> Option<int>
    decreases ms.len(),
{
    if ms.len() == 0 {
        None
    } else if ms.last().name == n {
        Some(ms.len() - 1)
    } else {
        last_named(ms.drop_last(), n)
    }
}

/// The materials of the given names that `ms` has, in the order of the names.
pub open spec fn found_textures(names: Seq<Seq<char>>, ms: Seq<MaterialModel>) -> Seq<int>
    decreases names.len(),
{
    if names.len() == 0 {
        seq![]
    } else {
        let prev = found_textures(names.drop_last(), ms);
        match last_named(ms, names.last()) {
            Some(i) => prev.push(i),
            None => prev,
        }
    }
}

/// The given names that no material of `ms` has, in order.
pub open spec fn missing_names(names: Seq<Seq<char>>, ms: Seq<MaterialModel>) -> Seq<Seq<char>>
    decreases names.len(),
{
    if names.len() == 0 {
        seq![]
    } else {
        let prev = missing_names(names.drop_last(), ms);
        match last_named(ms, names.last()) {
            Some(i) => prev,
            None => prev.push(names.last()),
        }
    }
}

/// The position in `textures` of the first texture whose material is named `n`.
pub open spec fn texture_position(textures: Seq<int>, ms: Seq<MaterialModel>, n: Seq<char>) -> Option<int>
    decreases textures.len(),
{
    if textures.len() == 0 {
        None
    } else {
        match texture_position(textures.drop_last(), ms, n) {
            Some(k) => Some(k),
            None => if ms[textures.last()].name == n {
                Some(textures.len() - 1)
            } else {
                None
            },
        }
    }
}

/// The texture of a face with material `mtl`.
pub open spec fn texture_key(textures: Seq<int>, ms: Seq<MaterialModel>, mtl: Option<Seq<char>>) -> Option<int> {
    match mtl {
        Some(n) => texture_position(textures, ms, n),
        None => None,
    }
}

/// The texture coordinate position of (1-based) index `i` in a list of `count`.
pub open spec fn uv_slot(count: int, i: Option<usize>) -> Option<usize> {
    match i {
        Some(i) => if 1 <= i <= count {
            Some((i - 1) as usize)
        } else {
            None
        },
        None => None,
    }
}

/// The triangle of the face that `r` designates.
pub open spec fn tri_plan(
    groups: Seq<GroupModel>,
    r: (int, int),
    textures: Seq<int>,
    ms: Seq<MaterialModel>,
) -> TriPlan {
    let f = face_at(groups, r);
    let uv_count = groups[r.0].shared.uv.len() as int;
    TriPlan {
        group: r.0 as usize,
        a: (f.a.vertex_index - 1) as usize,
        b: (f.b.vertex_index - 1) as usize,
        c: (f.c.vertex_index - 1) as usize,
        a_uv: uv_slot(uv_count, f.a.uv_index),
        b_uv: uv_slot(uv_count, f.b.uv_index),
        c_uv: uv_slot(uv_count, f.c.uv_index),
        tex_key: match texture_key(textures, ms, f.mtl) {
            Some(k) => Some(k as usize),
            None => None,
        },
    }
}

/// The corners of the face that `r` designates are vertices of its group.
pub open spec fn vertices_found(groups: Seq<GroupModel>, r: (int, int)) -> bool {
    let f = face_at(groups, r);
    let n = groups[r.0].shared.vertices.len();
    &&& 1 <= f.a.vertex_index <= n
    &&& 1 <= f.b.vertex_index <= n
    &&& 1 <= f.c.vertex_index <= n
}

/// No texture coordinate index of the face that `r` designates is 0.
pub open spec fn uv_indices_ok(groups: Seq<GroupModel>, r: (int, int)) -> bool {
    let f = face_at(groups, r);
    &&& f.a.uv_index != Some(0usize)
    &&& f.b.uv_index != Some(0usize)
    &&& f.c.uv_index != Some(0usize)
}

/// Why no mesh can be built for `filter` from `groups`, if any reason holds:
/// a face's missing vertex, else a face's texture coordinate 0, else that no
/// face is selected.
pub open spec fn mesh_fault_of(groups: Seq<GroupModel>, filter: Option<Seq<char>>) -> Option<MeshFault> {
    let refs = face_refs(groups, filter);
    if exists|k: int| 0 <= k < refs.len() && !vertices_found(groups, #[trigger] refs[k]) {
        Some(MeshFault::MissingVertex)
    } else if exists|k: int| 0 <= k < refs.len() && !uv_indices_ok(groups, #[trigger] refs[k]) {
        Some(MeshFault::UvIndexZero)
    } else if refs.len() == 0 {
        Some(MeshFault::NoFaces)
    } else {
        None
    }
}

/// The view of an optional string slice.
pub open spec fn opt_str(o: Option<&str>) -> Option<Seq<char>> {
    match o {
        Some(s) => Some(s@),
        None => None,
    }
}

/// The references of a list of (group position, face position) pairs.
pub open spec fn ref_views(v: Seq<(usize, usize)>) -> Seq<(int, int)> {
    v.map_values(|p: (usize, usize)| (p.0 as int, p.1 as int))
}

/// The positions of a list, as integers.
pub open spec fn positions(v: Seq<usize>) -> Seq<int> {
    v.map_values(|x: usize| x as int)
}

/// Every face reference designates a face of the groups.
pub proof fn lemma_face_refs_valid(groups: Seq<GroupModel>, filter: Option<Seq<char>>)
    ensures
        forall|k: int|
            0 <= k < face_refs(groups, filter).len() ==> {
                let r = #[trigger] face_refs(groups, filter)[k];
                0 <= r.0 < groups.len() && 0 <= r.1 < groups[r.0].faces.len()
            },
    decreases groups.len(),
{
    if groups.len() > 0 {
        lemma_face_refs_valid(groups.drop_last(), filter);
        let rest = face_refs(groups.drop_last(), filter);
        assert forall|k: int| 0 <= k < rest.len() implies {
            let r = #[trigger] rest[k];
            0 <= r.0 < groups.len() && 0 <= r.1 < groups[r.0].faces.len()
        } by {
            assert(groups.drop_last()[rest[k].0] == groups[rest[k].0]);
        }
    }
}

/// The material that `last_named` finds has that name.
pub proof fn lemma_last_named(ms: Seq<MaterialModel>, n: Seq<char>)
    ensures
        last_named(ms, n) matches Some(i) ==> 0 <= i < ms.len() && ms[i].name == n,
        last_named(ms, n) is None ==> forall|i: int| 0 <= i < ms.len() ==> ms[i].name != n,
    decreases ms.len(),
{
    if ms.len() > 0 && ms.last().name != n {
        lemma_last_named(ms.drop_last(), n);
        assert forall|i: int| 0 <= i < ms.len() - 1 implies ms[i] == ms.drop_last()[i] by {}
    }
}

/// Every texture of `found_textures` is a material of `ms`.
pub proof fn lemma_found_textures_valid(names: Seq<Seq<char>>, ms: Seq<MaterialModel>)
    ensures
        forall|k: int| 0 <= k < found_textures(names, ms).len() ==> 0 <= #[trigger] found_textures(names, ms)[k] < ms.len(),
    decreases names.len(),
{
    if names.len() > 0 {
        lemma_found_textures_valid(names.drop_last(), ms);
        lemma_last_named(ms, names.last());
        let prev = found_textures(names.drop_last(), ms);
        let all = found_textures(names, ms);
        assert forall|k: int| 0 <= k < all.len() implies 0 <= #[trigger] all[k] < ms.len() by {
            if k < prev.len() {
                assert(all[k] == prev[k]);
            }
        }
    }
}

/// A texture found among the first textures is the one found among all.
pub proof fn lemma_texture_position_prefix(textures: Seq<int>, ms: Seq<MaterialModel>, n: Seq<char>, m: int)
    requires
        0 <= m <= textures.len(),
        texture_position(textures.take(m), ms, n) is Some,
    ensures
        texture_position(textures, ms, n) == texture_position(textures.take(m), ms, n),
    decreases textures.len(),
{
    if m < textures.len() {
        assert(textures.drop_last().take(m) =~= textures.take(m));
        lemma_texture_position_prefix(textures.drop_last(), ms, n, m);
    } else {
        assert(textures.take(m) =~= textures);
    }
}

/// A texture position designates a texture whose material has that name.
pub proof fn lemma_texture_position(textures: Seq<int>, ms: Seq<MaterialModel>, n: Seq<char>)
    ensures
        texture_position(textures, ms, n) matches Some(k) ==> 0 <= k < textures.len() && ms[textures[k]].name == n,
    decreases textures.len(),
{
    if textures.len() > 0 {
        lemma_texture_position(textures.drop_last(), ms, n);
    }
}

fn contains_text(names: &Vec<String>, n: &String) -> (b: bool)
    ensures
        b == texts(names@).contains(n@),
{
    let mut i: usize = 0;
    while i < names.len()
        invariant
            i <= names@.len(),
            forall|k: int| 0 <= k < i ==> names@[k]@ != n@,
        decreases names@.len() - i,
    {
        if names[i] == *n {
            assert(texts(names@)[i as int] == n@);
            return true;
        }
        i += 1;
    }
    assert forall|k: int| 0 <= k < texts(names@).len() implies texts(names@)[k] != n@ by {
        assert(texts(names@)[k] == names@[k]@);
    }
    false
}

impl ObjMeshBuilder {
    /// A builder with no groups and no materials.
    pub fn new() -> (b: ObjMeshBuilder)
        ensures
            b@.groups == Seq::<GroupModel>::empty(),
            b@.materials == Seq::<MaterialModel>::empty(),
    {
        let b = ObjMeshBuilder { groups: Vec::new(), materials: Vec::new() };
        assert(b@.groups =~= Seq::<GroupModel>::empty());
        assert(b@.materials =~= Seq::<MaterialModel>::empty());
        b
    }

    /// Adds the groups of an OBJ file.
    pub fn add_groups(&mut self, groups: Vec<ObjGroup>)
        ensures
            final(self)@.groups == old(self)@.groups + group_views(groups@),
            final(self)@.materials == old(self)@.materials,
    {
        let mut groups = groups;
        let ghost added = groups@;
        let ghost before = self.groups@;
        self.groups.append(&mut groups);
        assert(group_views(self.groups@) =~= group_views(before) + group_views(added));
    }

    /// Adds the materials of an MTL file; a material replaces any earlier one of the same name.
    pub fn add_materials(&mut self, mtl: MtlFile)
        ensures
            final(self)@.materials == old(self)@.materials + mtl@,
            final(self)@.groups == old(self)@.groups,
    {
        let mut materials = mtl.materials;
        let ghost added = materials@;
        let ghost before = self.materials@;
        self.materials.append(&mut materials);
        assert(material_views(self.materials@) =~= material_views(before) + material_views(added));
    }

    /// The groups, in order.
    pub fn groups(&self) -> (g: &Vec<ObjGroup>)
        ensures
            group_views(g@) == self@.groups,
    {
        &self.groups
    }

    /// The materials, in order.
    pub fn materials(&self) -> (m: &Vec<ObjMaterial>)
        ensures
            material_views(m@) == self@.materials,
    {
        &self.materials
    }

    /// The names of the groups, in order.
    pub fn group_names(&self) -> (names: Vec<String>)
        ensures
            texts(names@) == self@.groups.map_values(|g: GroupModel| g.name),
    {
        let mut names: Vec<String> = Vec::new();
        let mut i: usize = 0;
        while i < self.groups.len()
            invariant
                i <= self.groups@.len(),
                names@.len() == i,
                forall|k: int| 0 <= k < i ==> #[trigger] names@[k]@ == self.groups@[k].name@,
            decreases self.groups@.len() - i,
        {
            names.push(self.groups[i].name.clone());
            i += 1;
        }
        assert(texts(names@) =~= self@.groups.map_values(|g: GroupModel| g.name));
        names
    }

    fn collect_face_refs(&self, filter: &Option<String>) -> (refs: Vec<(usize, usize)>)
        ensures
            ref_views(refs@) == face_refs(self@.groups, opt_text_of(filter)),
    {
        let ghost gs = self@.groups;
        let ghost f = opt_text_of(filter);
        let mut refs: Vec<(usize, usize)> = Vec::new();
        let mut gi: usize = 0;
        while gi < self.groups.len()
            invariant
                gi <= self.groups@.len(),
                gs == self@.groups,
                f == opt_text_of(filter),
                ref_views(refs@) == face_refs(gs.take(gi as int), f),
            decreases self.groups@.len() - gi,
        {
            let ghost prefix = ref_views(refs@);
            assert(gs[gi as int] == self.groups@[gi as int]@);
            let chosen = match filter {
                None => true,
                Some(n) => self.groups[gi].name == *n,
            };
            let nf = self.groups[gi].faces.len();
            if chosen {
                let mut fi: usize = 0;
                while fi < nf
                    invariant
                        fi <= nf,
                        gi < self.groups@.len(),
                        ref_views(refs@) == prefix + Seq::new(fi as nat, |j: int| (gi as int, j)),
                    decreases nf - fi,
                {
                    let ghost r0 = refs@;
                    refs.push((gi, fi));
                    assert(ref_views(refs@) =~= ref_views(r0).push((gi as int, fi as int)));
                    assert(ref_views(refs@) =~= prefix + Seq::new((fi + 1) as nat, |j: int| (gi as int, j)));
                    fi += 1;
                }
            }
            proof {
                assert(gs.take(gi + 1).drop_last() =~= gs.take(gi as int));
                assert(gs.take(gi + 1)[gi as int] == gs[gi as int]);
                if chosen {
                    assert(gs[gi as int].faces.len() == nf);
                } else {
                    assert(ref_views(refs@) =~= prefix);
                }
            }
            gi += 1;
        }
        assert(gs.take(gi as int) =~= gs);
        refs
    }
}

/// The view of an optional string.
pub open spec fn opt_text_of(o: &Option<String>) -> Option<Seq<char>> {
    match o {
        Some(s) => Some(s@),
        None => None,
    }
}

/// Every reference designates a face of the groups.
pub open spec fn refs_valid(groups: Seq<GroupModel>, refs: Seq<(int, int)>) -> bool {
    forall|k: int|
        0 <= k < refs.len() ==> {
            let r = #[trigger] refs[k];
            0 <= r.0 < groups.len() && 0 <= r.1 < groups[r.0].faces.len()
        }
}

fn uv_slot_of(count: usize, i: Option<usize>) -> (r: Option<usize>)
    ensures
        r == uv_slot(count as int, i),
{
    match i {
        Some(i) => if 1 <= i && i <= count {
            Some(i - 1)
        } else {
            None
        },
        None => None,
    }
}

impl ObjMeshBuilder {
    fn face(&self, r: (usize, usize)) -> (f: &crate::obj_file::ObjFace)
        requires
            refs_valid(self@.groups, seq![(r.0 as int, r.1 as int)]),
        ensures
            f@ == face_at(self@.groups, (r.0 as int, r.1 as int)),
    {
        assert(seq![(r.0 as int, r.1 as int)][0] == (r.0 as int, r.1 as int));
        assert(self@.groups[r.0 as int] == self.groups@[r.0 as int]@);
        assert(self@.groups[r.0 as int].faces[r.1 as int] == self.groups@[r.0 as int].faces@[r.1 as int]@);
        &self.groups[r.0].faces[r.1]
    }

    fn last_named_at(&self, n: &String) -> (r: Option<usize>)
        ensures
            r is None <==> last_named(self@.materials, n@) is None,
            r matches Some(j) ==> last_named(self@.materials, n@) == Some(j as int),
    {
        let ghost ms = self@.materials;
        let mut j: usize = self.materials.len();
        assert(ms.take(j as int) =~= ms);
        while j > 0
            invariant
                j <= self.materials@.len(),
                ms == self@.materials,
                last_named(ms, n@) == last_named(ms.take(j as int), n@),
            decreases j,
        {
            assert(ms.take(j as int).drop_last() =~= ms.take(j - 1));
            assert(ms.take(j as int).last() == self.materials@[j - 1]@);
            if self.materials[j - 1].name == *n {
                return Some(j - 1);
            }
            j -= 1;
        }
        None
    }

    fn texture_position_of(&self, textures: &Vec<usize>, n: &String) -> (r: Option<usize>)
        requires
            forall|k: int| 0 <= k < textures@.len() ==> #[trigger] textures@[k] < self@.materials.len(),
        ensures
            r is None <==> texture_position(positions(textures@), self@.materials, n@) is None,
            r matches Some(k) ==> texture_position(positions(textures@), self@.materials, n@) == Some(k as int),
    {
        let ghost ms = self@.materials;
        let ghost pt = positions(textures@);
        let mut k: usize = 0;
        while k < textures.len()
            invariant
                k <= textures@.len(),
                ms == self@.materials,
                pt == positions(textures@),
                forall|q: int| 0 <= q < textures@.len() ==> #[trigger] textures@[q] < self@.materials.len(),
                texture_position(pt.take(k as int), ms, n@) is None,
            decreases textures@.len() - k,
        {
            assert(pt.take(k + 1).drop_last() =~= pt.take(k as int));
            assert(pt.take(k + 1).last() == textures@[k as int] as int);
            assert(ms[textures@[k as int] as int] == self.materials@[textures@[k as int] as int]@);
            if self.materials[textures[k]].name == *n {
                proof {
                    lemma_texture_position_prefix(pt, ms, n@, k + 1);
                }
                return Some(k);
            }
            k += 1;
        }
        assert(pt.take(k as int) =~= pt);
        None
    }

    fn used_material_names(&self, refs: &Vec<(usize, usize)>) -> (names: Vec<String>)
        requires
            refs_valid(self@.groups, ref_views(refs@)),
        ensures
            texts(names@) == used_materials(self@.groups, ref_views(refs@)),
    {
        let ghost gs = self@.groups;
        let ghost rv = ref_views(refs@);
        let mut names: Vec<String> = Vec::new();
        let mut k: usize = 0;
        while k < refs.len()
            invariant
                k <= refs@.len(),
                gs == self@.groups,
                rv == ref_views(refs@),
                refs_valid(gs, rv),
                texts(names@) == used_materials(gs, rv.take(k as int)),
            decreases refs@.len() - k,
        {
            let r = refs[k];
            proof {
                assert(rv.take(k + 1).drop_last() =~= rv.take(k as int));
                assert(rv.take(k + 1).last() == rv[k as int]);
                assert(rv[k as int] == (r.0 as int, r.1 as int));
                assert(seq![(r.0 as int, r.1 as int)][0] == rv[k as int]);
            }
            let face = self.face(r);
            match &face.mtl {
                Some(n) => {
                    if !contains_text(&names, n) {
                        let ghost before = names@;
                        names.push(n.clone());
                        assert(texts(names@) =~= texts(before).push(n@));
                    }
                },
                None => {},
            }
            k += 1;
        }
        assert(rv.take(k as int) =~= rv);
        names
    }

    /// Why no mesh can be built from the groups named `group_name` (from every
    /// group where no name is given), if any reason holds.
    pub fn mesh_fault(&self, group_name: Option<&str>) -> (fault: Option<MeshFault>)
        ensures
            fault == mesh_fault_of(self@.groups, opt_str(group_name)),
    {
        let filter: Option<String> = match group_name {
            Some(s) => Some(s.to_owned()),
            None => None,
        };
        let refs = self.collect_face_refs(&filter);
        let ghost gs = self@.groups;
        let ghost rv = ref_views(refs@);
        proof {
            lemma_face_refs_valid(gs, opt_str(group_name));
            assert(opt_text_of(&filter) == opt_str(group_name));
            assert(refs_valid(gs, rv));
        }
        let mut k: usize = 0;
        while k < refs.len()
            invariant
                k <= refs@.len(),
                gs == self@.groups,
                rv == ref_views(refs@),
                rv == face_refs(gs, opt_str(group_name)),
                refs_valid(gs, rv),
                forall|q: int| 0 <= q < k ==> vertices_found(gs, #[trigger] rv[q]),
            decreases refs@.len() - k,
        {
            let r = refs[k];
            assert(rv[k as int] == (r.0 as int, r.1 as int));
            assert(seq![(r.0 as int, r.1 as int)][0] == rv[k as int]);
            let face = self.face(r);
            let n = self.groups[r.0].shared.vertices.len();
            assert(gs[r.0 as int] == self.groups@[r.0 as int]@);
            if !(1 <= face.a.vertex_index && face.a.vertex_index <= n && 1 <= face.b.vertex_index
                && face.b.vertex_index <= n && 1 <= face.c.vertex_index && face.c.vertex_index <= n) {
                assert(!vertices_found(gs, rv[k as int]));
                return Some(MeshFault::MissingVertex);
            }
            k += 1;
        }
        let mut k: usize = 0;
        while k < refs.len()
            invariant
                k <= refs@.len(),
                gs == self@.groups,
                rv == ref_views(refs@),
                rv == face_refs(gs, opt_str(group_name)),
                refs_valid(gs, rv),
                forall|q: int| 0 <= q < rv.len() ==> vertices_found(gs, #[trigger] rv[q]),
                forall|q: int| 0 <= q < k ==> uv_indices_ok(gs, #[trigger] rv[q]),
            decreases refs@.len() - k,
        {
            let r = refs[k];
            assert(rv[k as int] == (r.0 as int, r.1 as int));
            assert(seq![(r.0 as int, r.1 as int)][0] == rv[k as int]);
            let face = self.face(r);
            if face.a.uv_index == Some(0usize) || face.b.uv_index == Some(0usize) || face.c.uv_index == Some(0usize) {
                assert(!uv_indices_ok(gs, rv[k as int]));
                return Some(MeshFault::UvIndexZero);
            }
            k += 1;
        }
        if refs.len() == 0 {
            return Some(MeshFault::NoFaces);
        }
        None
    }
}

impl ObjMeshBuilder {
    /// Plans the mesh of the groups named `group_name` (of every group where
    /// no name is given): one texture for each material that the faces use and
    /// the builder has, in the order the materials first occur, and one
    /// triangle for each face, group by group and in order.
    pub fn plan_mesh(&self, group_name: Option<&str>) -> (plan: MeshPlan)
        requires
            mesh_fault_of(self@.groups, opt_str(group_name)) is None,
        ensures
            ({
                let refs = face_refs(self@.groups, opt_str(group_name));
                let names = used_materials(self@.groups, refs);
                &&& positions(plan.textures@) == found_textures(names, self@.materials)
                &&& texts(plan.missing_materials@) == missing_names(names, self@.materials)
                &&& plan.tris@.len() == refs.len()
                &&& forall|k: int|
                    0 <= k < refs.len() ==> #[trigger] plan.tris@[k] == tri_plan(
                        self@.groups,
                        refs[k],
                        positions(plan.textures@),
                        self@.materials,
                    )
            }),
    {
        let filter: Option<String> = match group_name {
            Some(s) => Some(s.to_owned()),
            None => None,
        };
        let refs = self.collect_face_refs(&filter);
        let ghost gs = self@.groups;
        let ghost ms = self@.materials;
        let ghost rv = ref_views(refs@);
        proof {
            lemma_face_refs_valid(gs, opt_str(group_name));
            assert(opt_text_of(&filter) == opt_str(group_name));
            assert(refs_valid(gs, rv));
            assert(forall|q: int| 0 <= q < rv.len() ==> vertices_found(gs, #[trigger] rv[q]));
        }
        let names = self.used_material_names(&refs);
        let ghost tn = texts(names@);
        let mut textures: Vec<usize> = Vec::new();
        let mut missing: Vec<String> = Vec::new();
        let mut i: usize = 0;
        while i < names.len()
            invariant
                i <= names@.len(),
                tn == texts(names@),
                ms == self@.materials,
                positions(textures@) == found_textures(tn.take(i as int), ms),
                texts(missing@) == missing_names(tn.take(i as int), ms),
            decreases names@.len() - i,
        {
            assert(tn.take(i + 1).drop_last() =~= tn.take(i as int));
            assert(tn.take(i + 1).last() == names@[i as int]@);
            let ghost t0 = textures@;
            let ghost m0 = missing@;

            match self.last_named_at(&names[i]) {
                Some(j) => {
                    textures.push(j);
                    assert(positions(textures@) =~= positions(t0).push(j as int));

                },
                None => {
                    missing.push(names[i].clone());
                    assert(texts(missing@) =~= texts(m0).push(names@[i as int]@));
                },
            }
            i += 1;
        }
        assert(tn.take(i as int) =~= tn);
        proof {
            lemma_found_textures_valid(tn, ms);
            assert forall|k: int| 0 <= k < textures@.len() implies #[trigger] textures@[k] < self@.materials.len() by {
                assert(positions(textures@)[k] == textures@[k] as int);
            }
        }
        let ghost pt = positions(textures@);
        let mut tris: Vec<TriPlan> = Vec::new();
        let mut k: usize = 0;
        while k < refs.len()
            invariant
                k <= refs@.len(),
                gs == self@.groups,
                ms == self@.materials,
                rv == ref_views(refs@),
                refs_valid(gs, rv),
                forall|q: int| 0 <= q < rv.len() ==> vertices_found(gs, #[trigger] rv[q]),
                pt == positions(textures@),
                forall|q: int| 0 <= q < textures@.len() ==> #[trigger] textures@[q] < self@.materials.len(),
                tris@.len() == k,
                forall|q: int| 0 <= q < k ==> #[trigger] tris@[q] == tri_plan(gs, rv[q], pt, ms),
            decreases refs@.len() - k,
        {
            let r = refs[k];
            assert(rv[k as int] == (r.0 as int, r.1 as int));
            assert(seq![(r.0 as int, r.1 as int)][0] == rv[k as int]);
            assert(vertices_found(gs, rv[k as int]));
            let face = self.face(r);
            let uv_count = self.groups[r.0].shared.uv.len();
            assert(gs[r.0 as int] == self.groups@[r.0 as int]@);
            let tex_key = match &face.mtl {
                Some(n) => self.texture_position_of(&textures, n),
                None => None,
            };
            let tri = TriPlan {
                group: r.0,
                a: face.a.vertex_index - 1,
                b: face.b.vertex_index - 1,
                c: face.c.vertex_index - 1,
                a_uv: uv_slot_of(uv_count, face.a.uv_index),
                b_uv: uv_slot_of(uv_count, face.b.uv_index),
                c_uv: uv_slot_of(uv_count, face.c.uv_index),
                tex_key,
            };
            assert(tri == tri_plan(gs, rv[k as int], pt, ms));
            tris.push(tri);
            k += 1;
        }
        MeshPlan { textures, missing_materials: missing, tris }
    }
}

proof fn lemma_used_materials_grow(groups: Seq<GroupModel>, refs: Seq<(int, int)>, m: int)
    requires
        0 <= m <= refs.len(),
    ensures
        forall|n: Seq<char>| used_materials(groups, refs.take(m)).contains(n) ==> #[trigger] used_materials(groups, refs).contains(n),
    decreases refs.len(),
{
    if m < refs.len() {
        assert(refs.drop_last().take(m) =~= refs.take(m));
        lemma_used_materials_grow(groups, refs.drop_last(), m);
        let prev = used_materials(groups, refs.drop_last());
        let all = used_materials(groups, refs);
        assert forall|n: Seq<char>| prev.contains(n) implies all.contains(n) by {
            let i = choose|i: int| 0 <= i < prev.len() && prev[i] == n;
            assert(all[i] == prev[i]);
        }
    } else {
        assert(refs.take(m) =~= refs);
    }
}

proof fn lemma_used_materials_contains(groups: Seq<GroupModel>, refs: Seq<(int, int)>, k: int)
    requires
        0 <= k < refs.len(),
    ensures
        face_at(groups, refs[k]).mtl matches Some(n) ==> used_materials(groups, refs).contains(n),
    decreases refs.len(),
{
    if let Some(n) = face_at(groups, refs[k]).mtl {
        let prefix = refs.take(k + 1);
        assert(prefix.drop_last() =~= refs.take(k));
        assert(prefix.last() == refs[k]);
        let prev = used_materials(groups, prefix.drop_last());
        if !prev.contains(n) {
            assert(used_materials(groups, prefix)[prev.len() as int] == n);
        }
        assert(used_materials(groups, prefix).contains(n));
        lemma_used_materials_grow(groups, refs, k + 1);
    }
}

proof fn lemma_found_textures_contains(names: Seq<Seq<char>>, ms: Seq<MaterialModel>, n: Seq<char>)
    requires
        names.contains(n),
        last_named(ms, n) is Some,
    ensures
        found_textures(names, ms).contains(last_named(ms, n)->0),
    decreases names.len(),
{
    let prev = found_textures(names.drop_last(), ms);
    let all = found_textures(names, ms);
    if names.last() == n {
        assert(all[prev.len() as int] == last_named(ms, n)->0);
    } else {
        let k = choose|k: int| 0 <= k < names.len() && names[k] == n;
        assert(names.drop_last()[k] == n);
        lemma_found_textures_contains(names.drop_last(), ms, n);
        let i = choose|i: int| 0 <= i < prev.len() && prev[i] == last_named(ms, n)->0;
        assert(all[i] == prev[i]);
    }
}

proof fn lemma_found_textures_are_last(names: Seq<Seq<char>>, ms: Seq<MaterialModel>)
    ensures
        forall|t: int|
            0 <= t < found_textures(names, ms).len() ==> last_named(ms, ms[#[trigger] found_textures(names, ms)[t]].name)
                == Some(found_textures(names, ms)[t]),
    decreases names.len(),
{
    if names.len() > 0 {
        lemma_found_textures_are_last(names.drop_last(), ms);
        lemma_last_named(ms, names.last());
        let prev = found_textures(names.drop_last(), ms);
        let all = found_textures(names, ms);
        assert forall|t: int| 0 <= t < all.len() implies last_named(ms, ms[#[trigger] all[t]].name) == Some(all[t]) by {
            if t < prev.len() {
                assert(all[t] == prev[t]);
            }
        }
    }
}

proof fn lemma_texture_position_found(textures: Seq<int>, ms: Seq<MaterialModel>, n: Seq<char>, i: int)
    requires
        textures.contains(i),
        0 <= i < ms.len(),
        ms[i].name == n,
    ensures
        texture_position(textures, ms, n) is Some,
    decreases textures.len(),
{
    if texture_position(textures.drop_last(), ms, n) is None && textures.last() != i {
        let k = choose|k: int| 0 <= k < textures.len() && textures[k] == i;
        assert(textures.drop_last()[k] == i);
        lemma_texture_position_found(textures.drop_last(), ms, n, i);
    }
}

/// The texture of a planned triangle is the material that its face names, the
/// last one of that name, and a face whose material the builder has gets it.
pub proof fn lemma_tri_texture(groups: Seq<GroupModel>, ms: Seq<MaterialModel>, filter: Option<Seq<char>>, k: int)
    requires
        0 <= k < face_refs(groups, filter).len(),
    ensures
        ({
            let refs = face_refs(groups, filter);
            let textures = found_textures(used_materials(groups, refs), ms);
            let f = face_at(groups, refs[k]);
            &&& texture_key(textures, ms, f.mtl) matches Some(t) ==> {
                &&& 0 <= t < textures.len()
                &&& f.mtl == Some(ms[textures[t]].name)
                &&& last_named(ms, ms[textures[t]].name) == Some(textures[t])
            }
            &&& (f.mtl matches Some(n) && last_named(ms, n) is Some) ==> texture_key(textures, ms, f.mtl) is Some
        }),
{
    let refs = face_refs(groups, filter);
    let names = used_materials(groups, refs);
    let textures = found_textures(names, ms);
    let f = face_at(groups, refs[k]);
    lemma_found_textures_valid(names, ms);
    lemma_found_textures_are_last(names, ms);
    if let Some(n) = f.mtl {
        lemma_texture_position(textures, ms, n);
        if last_named(ms, n) is Some {
            lemma_used_materials_contains(groups, refs, k);
            lemma_found_textures_contains(names, ms, n);
            lemma_last_named(ms, n);
            lemma_texture_position_found(textures, ms, n, last_named(ms, n)->0);
        }
    }
}

/// The object of the name `name` among named objects whose names come once each.
pub open spec fn named_object(objects: Seq<(Seq<char>, ObjObjectModel)>, name: Seq<char>) -> ObjObjectModel {
    objects[slot_of(object_names(objects), name)].1
}

/// Every face of `obj` refers to vertices that it has, and to no texture
/// coordinate 0.
pub open spec fn object_faces_ok(obj: ObjObjectModel) -> bool {
    forall|k: int|
        0 <= k < obj.faces.len() ==> {
            let f = #[trigger] obj.faces[k];
            &&& 1 <= f.a.vertex_index <= obj.vertices.len()
            &&& 1 <= f.b.vertex_index <= obj.vertices.len()
            &&& 1 <= f.c.vertex_index <= obj.vertices.len()
            &&& f.a.uv_index != Some(0usize)
            &&& f.b.uv_index != Some(0usize)
            &&& f.c.uv_index != Some(0usize)
        }
}

/// The triangle of face `f` of an object: its vertex positions, the
/// positions of its texture coordinates where the object has them, and no
/// texture (faces of such an object name no material); the object counts as
/// group 0.
pub open spec fn object_tri_plan(obj: ObjObjectModel, f: TriFace) -> TriPlan {
    let uv_count = obj.uv.len() as int;
    TriPlan {
        group: 0,
        a: (f.a.vertex_index - 1) as usize,
        b: (f.b.vertex_index - 1) as usize,
        c: (f.c.vertex_index - 1) as usize,
        a_uv: uv_slot(uv_count, f.a.uv_index),
        b_uv: uv_slot(uv_count, f.b.uv_index),
        c_uv: uv_slot(uv_count, f.c.uv_index),
        tex_key: None,
    }
}

/// The mesh of the object named `object_name` in an OBJ file of named objects
/// (`obj_format`), if it has one: a triangle for each of its faces, in order,
/// and no texture.
pub fn plan_object_mesh(file: &crate::obj_format::ObjFile, object_name: &str) -> (r: Option<MeshPlan>)
    requires
        object_names(file@).no_duplicates(),
        object_names(file@).contains(object_name@) ==> object_faces_ok(named_object(file@, object_name@)),
    ensures
        r is None <==> !object_names(file@).contains(object_name@),
        r matches Some(p) ==> {
            let obj = named_object(file@, object_name@);
            &&& p.textures@.len() == 0
            &&& p.missing_materials@.len() == 0
            &&& p.tris@.len() == obj.faces.len()
            &&& forall|k: int| 0 <= k < p.tris@.len() ==> #[trigger] p.tris@[k] == object_tri_plan(obj, obj.faces[k])
        },
{
    let obj = match file.find_object(object_name) {
        None => {
            return None;
        },
        Some(o) => o,
    };
    let ghost model = named_object(file@, object_name@);
    assert(obj@ == model);
    let uv_count = obj.uv.len();
    let mut tris: Vec<TriPlan> = Vec::new();
    let mut k: usize = 0;
    while k < obj.faces.len()
        invariant
            k <= obj.faces@.len(),
            obj@ == model,
            object_faces_ok(model),
            uv_count == model.uv.len(),
            tris@.len() == k,
            forall|q: int| 0 <= q < k ==> #[trigger] tris@[q] == object_tri_plan(model, model.faces[q]),
        decreases obj.faces@.len() - k,
    {
        let face = obj.faces[k];
        assert(face == model.faces[k as int]);
        let tri = TriPlan {
            group: 0,
            a: face.a.vertex_index - 1,
            b: face.b.vertex_index - 1,
            c: face.c.vertex_index - 1,
            a_uv: uv_slot_of(uv_count, face.a.uv_index),
            b_uv: uv_slot_of(uv_count, face.b.uv_index),
            c_uv: uv_slot_of(uv_count, face.c.uv_index),
            tex_key: None,
        };
        tris.push(tri);
        k += 1;
    }
    Some(MeshPlan { textures: Vec::new(), missing_materials: Vec::new(), tris })
}

} // verus!
