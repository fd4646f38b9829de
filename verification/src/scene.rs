//! The scenes that can be rendered: which one a name selects, which objects it
//! holds, which file it is written to, and how numbers given as text are read.
use vstd::prelude::*;
use vstd::utf8::*;
use vstd::string::*;
use crate::lines::{decode_text, line_text, scalars};
use crate::text::{parse_bounded, parse_unsigned};

verus! {

broadcast use {vstd::utf8::encode_utf8_valid_utf8, vstd::utf8::encode_utf8_decode_utf8};

/// A scene that can be rendered.
#[derive(Clone, Copy, Debug, PartialEq, Eq)]
pub enum SceneKind {
    All,
    PlaneSphere,
    PlaneCube,
    PlaneCylinder,
    AllParticles,
    Particles,
    Reflection,
    Refraction,
}

/// An object that a scene holds.
#[derive(Clone, Copy, Debug, PartialEq, Eq)]
pub enum SceneObject {
    /// The red sphere at the origin.
    Sphere,
    /// The grey floor plane.
    Plane,
    /// The green cube.
    Cube,
    /// The blue cylinder.
    Cylinder,
    /// The randomly placed small spheres.
    Particles,
    /// The sphere at the origin, made more reflective.
    ReflectiveSphere,
    /// The floor plane, made refractive.
    RefractivePlane,
}

/// The scene that a name selects; a name that is none of the others selects
/// `all`.
pub open spec fn scene_kind(name: Seq<char>) -> SceneKind {
    if name == "plane_sphere"@ {
        SceneKind::PlaneSphere
    } else if name == "plane_cube"@ {
        SceneKind::PlaneCube
    } else if name == "plane_cylinder"@ {
        SceneKind::PlaneCylinder
    } else if name == "all_particles"@ {
        SceneKind::AllParticles
    } else if name == "particles"@ {
        SceneKind::Particles
    } else if name == "reflection"@ {
        SceneKind::Reflection
    } else if name == "refraction"@ {
        SceneKind::Refraction
    } else {
        SceneKind::All
    }
}

/// The objects of a scene, in the order in which they are handed to the renderer.
pub open spec fn scene_objects(kind: SceneKind) -> Seq<SceneObject> {
    match kind {
        SceneKind::All => seq![
            SceneObject::Sphere,
            SceneObject::Plane,
            SceneObject::Cube,
            SceneObject::Cylinder,
        ],
        SceneKind::PlaneSphere => seq![SceneObject::Plane, SceneObject::Sphere],
        SceneKind::PlaneCube => seq![SceneObject::Plane, SceneObject::Cube],
        SceneKind::PlaneCylinder => seq![SceneObject::Plane, SceneObject::Cylinder],
        SceneKind::AllParticles => seq![
            SceneObject::Sphere,
            SceneObject::Plane,
            SceneObject::Cube,
            SceneObject::Cylinder,
            SceneObject::Particles,
        ],
        SceneKind::Particles => seq![SceneObject::Particles],
        SceneKind::Reflection => seq![
            SceneObject::ReflectiveSphere,
            SceneObject::Plane,
            SceneObject::Cube,
            SceneObject::Cylinder,
        ],
        SceneKind::Refraction => seq![
            SceneObject::Sphere,
            SceneObject::RefractivePlane,
            SceneObject::Cube,
            SceneObject::Cylinder,
        ],
    }
}

/// The file that a scene is written to when no output file is given.
pub open spec fn output_path(kind: SceneKind) -> Seq<char> {
    match kind {
        SceneKind::All => "Output/output_all.ppm"@,
        SceneKind::PlaneSphere => "Output/output_plane_sphere.ppm"@,
        SceneKind::PlaneCube => "Output/output_plane_cube.ppm"@,
        SceneKind::PlaneCylinder => "Output/output_plane_cylinder.ppm"@,
        SceneKind::AllParticles => "Output/output_all_particles.ppm"@,
        SceneKind::Particles => "Output/output_particles.ppm"@,
        SceneKind::Reflection => "Output/reflection.ppm"@,
        SceneKind::Refraction => "Output/refraction.ppm"@,
    }
}

/// Whether two strings hold the same text.
fn same_text(a: &str, b: &str) -> (r: bool)
    ensures
        r == (a@ == b@),
{
    let x = a.as_bytes();
    let y = b.as_bytes();
    proof {
        assert(decode_utf8(encode_utf8(a@)) == a@);
        assert(decode_utf8(encode_utf8(b@)) == b@);
    }
    if x.len() != y.len() {
        return false;
    }
    let mut i: usize = 0;
    while i < x.len()
        invariant
            i <= x@.len(),
            x@.len() == y@.len(),
            x@ == encode_utf8(a@),
            y@ == encode_utf8(b@),
            forall|j: int| 0 <= j < i ==> x@[j] == y@[j],
        decreases x@.len() - i,
    {
        if x[i] != y[i] {
            return false;
        }
        i = i + 1;
    }
    assert(x@ =~= y@);
    true
}

impl SceneKind {
    /// The scene that a name selects (see [`scene_kind`]).
    pub fn from_name(name: &str) -> (k: SceneKind)
        ensures
            k == scene_kind(name@),
    {
        if same_text(name, "plane_sphere") {
            SceneKind::PlaneSphere
        } else if same_text(name, "plane_cube") {
            SceneKind::PlaneCube
        } else if same_text(name, "plane_cylinder") {
            SceneKind::PlaneCylinder
        } else if same_text(name, "all_particles") {
            SceneKind::AllParticles
        } else if same_text(name, "particles") {
            SceneKind::Particles
        } else if same_text(name, "reflection") {
            SceneKind::Reflection
        } else if same_text(name, "refraction") {
            SceneKind::Refraction
        } else {
            SceneKind::All
        }
    }

    /// The objects of the scene, in the order in which they are rendered.
    pub fn objects(self) -> (r: Vec<SceneObject>)
        ensures
            r@ == scene_objects(self),
    {
        let mut r: Vec<SceneObject> = Vec::new();
        match self {
            SceneKind::All | SceneKind::AllParticles => {
                r.push(SceneObject::Sphere);
                r.push(SceneObject::Plane);
                r.push(SceneObject::Cube);
                r.push(SceneObject::Cylinder);
                if let SceneKind::AllParticles = self {
                    r.push(SceneObject::Particles);
                }
            },
            SceneKind::PlaneSphere => {
                r.push(SceneObject::Plane);
                r.push(SceneObject::Sphere);
            },
            SceneKind::PlaneCube => {
                r.push(SceneObject::Plane);
                r.push(SceneObject::Cube);
            },
            SceneKind::PlaneCylinder => {
                r.push(SceneObject::Plane);
                r.push(SceneObject::Cylinder);
            },
            SceneKind::Particles => {
                r.push(SceneObject::Particles);
            },
            SceneKind::Reflection => {
                r.push(SceneObject::ReflectiveSphere);
                r.push(SceneObject::Plane);
                r.push(SceneObject::Cube);
                r.push(SceneObject::Cylinder);
            },
            SceneKind::Refraction => {
                r.push(SceneObject::Sphere);
                r.push(SceneObject::RefractivePlane);
                r.push(SceneObject::Cube);
                r.push(SceneObject::Cylinder);
            },
        }
        assert(r@ =~= scene_objects(self));
        r
    }
}

/// The file to write a scene to: the output file given, when it is not empty;
/// otherwise the scene's own file under `Output/` (see [`output_path`]).
pub fn output_filename(kind: SceneKind, output_flag: &str) -> (r: String)
    ensures
        r@ == (if output_flag@.len() > 0 {
            output_flag@
        } else {
            output_path(kind)
        }),
{
    if !output_flag.is_empty() {
        return output_flag.to_owned();
    }
    match kind {
        SceneKind::All => "Output/output_all.ppm".to_owned(),
        SceneKind::PlaneSphere => "Output/output_plane_sphere.ppm".to_owned(),
        SceneKind::PlaneCube => "Output/output_plane_cube.ppm".to_owned(),
        SceneKind::PlaneCylinder => "Output/output_plane_cylinder.ppm".to_owned(),
        SceneKind::AllParticles => "Output/output_all_particles.ppm".to_owned(),
        SceneKind::Particles => "Output/output_particles.ppm".to_owned(),
        SceneKind::Reflection => "Output/reflection.ppm".to_owned(),
        SceneKind::Refraction => "Output/refraction.ppm".to_owned(),
    }
}

/// The scalar values of a string's characters.
pub open spec fn char_values(s: Seq<char>) -> Seq<u32> {
    s.map_values(|c: char| c as u32)
}

/// A count or a size given as text: its value as `usize` reads it, or `default`
/// when the text is not such a number.
pub fn parse_usize_or(text: &str, default: usize) -> (r: usize)
    ensures
        r == (match parse_unsigned(char_values(text@), usize::MAX as nat) {
            Some(v) => v as usize,
            None => default,
        }),
{
    let bytes = text.as_bytes();
    proof {
        assert(bytes@.subrange(0, bytes@.len() as int) =~= encode_utf8(text@));
        assert(valid_utf8(encode_utf8(text@)));
        assert(decode_utf8(encode_utf8(text@)) == text@);
    }
    match decode_text(bytes, 0, bytes.len()) {
        None => default,
        Some(chars) => {
            assert(chars@ == scalars(encode_utf8(text@)));
            match parse_bounded(chars.as_slice(), usize::MAX as u64) {
                Some(v) => v as usize,
                None => default,
            }
        },
    }
}

} // verus!
