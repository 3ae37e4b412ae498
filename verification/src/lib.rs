pub mod text;
pub mod int_text;
pub mod float_text;
pub mod format;

pub mod view_chunk;
pub mod viewport;
pub mod rgba;
pub mod partition;
pub mod bvh;

pub mod obj_format;
pub mod obj_file;
pub mod mtl_file;
pub mod mesh_build;
pub mod mesh_file;
pub mod wavefront;

pub mod render_job;
pub mod color_map;
pub mod seed;
pub mod timer;

pub use bvh::{Bvh, BvhHitCandidate, BvhLeaf};
pub use format::{FormattedDuration, format_duration};
pub use mesh_build::{MeshFault, MeshPlan, ObjMeshBuilder, TriPlan};
pub use mesh_file::{ParseMeshErr, parse_face_line};
pub use mtl_file::{MtlFile, ObjMaterial, parse_mtl_file};
pub use obj_file::{ObjError, ObjGroup, ObjShared, ObjVertex, parse_obj_file};
pub use obj_format::{TriFace, TriVertex, VertexParseError, try_parse_elements};
pub use partition::partition_by_key;
pub use color_map::{ColorMapData, ImageKind, color_map_data, color_map_from_rgba};
pub use render_job::{RenderJob, RenderJobUpdateResult, RenderThreadMessage, ThreadStats, chunk_buffer};
pub use rgba::{Rgba, RgbaBuffer, RgbaRaw};
pub use seed::create_rng_from_seed;
pub use timer::Timer;
pub use view_chunk::{Rgb, ViewChunk, Viewport};
pub use viewport::{RenderChunk, ViewChunkCoords, create_render_chunks};
pub use wavefront::{ObjParseError, parse_triple};
