use raytracer::raster::render;
use raytracer::scene::{output_filename, parse_usize_or, SceneKind, SceneObject};

#[test]
fn render_goes_row_by_row() {
    let pixels = render(3, 2, |x, y| [x as u8, y as u8, 9]);
    assert_eq!(
        pixels,
        vec![[0, 0, 9], [1, 0, 9], [2, 0, 9], [0, 1, 9], [1, 1, 9], [2, 1, 9]]
    );
}

#[test]
fn render_of_empty_image_is_empty() {
    assert!(render(0, 5, |_, _| [1, 2, 3]).is_empty());
    assert!(render(4, 0, |_, _| [1, 2, 3]).is_empty());
}

#[test]
fn scene_names_select_scenes() {
    assert_eq!(SceneKind::from_name("all"), SceneKind::All);
    assert_eq!(SceneKind::from_name("plane_sphere"), SceneKind::PlaneSphere);
    assert_eq!(SceneKind::from_name("plane_cube"), SceneKind::PlaneCube);
    assert_eq!(SceneKind::from_name("plane_cylinder"), SceneKind::PlaneCylinder);
    assert_eq!(SceneKind::from_name("all_particles"), SceneKind::AllParticles);
    assert_eq!(SceneKind::from_name("particles"), SceneKind::Particles);
    assert_eq!(SceneKind::from_name("reflection"), SceneKind::Reflection);
    assert_eq!(SceneKind::from_name("refraction"), SceneKind::Refraction);
}

#[test]
fn unknown_scene_names_select_all() {
    assert_eq!(SceneKind::from_name(""), SceneKind::All);
    assert_eq!(SceneKind::from_name("Plane_sphere"), SceneKind::All);
    assert_eq!(SceneKind::from_name("particles "), SceneKind::All);
    assert_eq!(SceneKind::from_name("réflection"), SceneKind::All);
}

#[test]
fn scenes_hold_their_objects_in_order() {
    assert_eq!(SceneKind::All.objects(), vec![SceneObject::Sphere, SceneObject::Plane, SceneObject::Cube, SceneObject::Cylinder]);
    assert_eq!(SceneKind::PlaneSphere.objects(), vec![SceneObject::Plane, SceneObject::Sphere]);
    assert_eq!(SceneKind::PlaneCube.objects(), vec![SceneObject::Plane, SceneObject::Cube]);
    assert_eq!(SceneKind::PlaneCylinder.objects(), vec![SceneObject::Plane, SceneObject::Cylinder]);
    assert_eq!(
        SceneKind::AllParticles.objects(),
        vec![SceneObject::Sphere, SceneObject::Plane, SceneObject::Cube, SceneObject::Cylinder, SceneObject::Particles]
    );
    assert_eq!(SceneKind::Particles.objects(), vec![SceneObject::Particles]);
    assert_eq!(
        SceneKind::Reflection.objects(),
        vec![SceneObject::ReflectiveSphere, SceneObject::Plane, SceneObject::Cube, SceneObject::Cylinder]
    );
    assert_eq!(
        SceneKind::Refraction.objects(),
        vec![SceneObject::Sphere, SceneObject::RefractivePlane, SceneObject::Cube, SceneObject::Cylinder]
    );
}

#[test]
fn output_file_given_wins() {
    assert_eq!(output_filename(SceneKind::PlaneCube, "my_cube.ppm"), "my_cube.ppm");
}

#[test]
fn output_file_defaults_per_scene() {
    assert_eq!(output_filename(SceneKind::All, ""), "Output/output_all.ppm");
    assert_eq!(output_filename(SceneKind::PlaneSphere, ""), "Output/output_plane_sphere.ppm");
    assert_eq!(output_filename(SceneKind::PlaneCube, ""), "Output/output_plane_cube.ppm");
    assert_eq!(
        output_filename(SceneKind::PlaneCylinder, ""),
        "Output/output_plane_cylinder.ppm"
    );
    assert_eq!(
        output_filename(SceneKind::AllParticles, ""),
        "Output/output_all_particles.ppm"
    );
    assert_eq!(output_filename(SceneKind::Particles, ""), "Output/output_particles.ppm");
    assert_eq!(output_filename(SceneKind::Reflection, ""), "Output/reflection.ppm");
    assert_eq!(output_filename(SceneKind::Refraction, ""), "Output/refraction.ppm");
}

#[test]
fn numbers_read_as_usize_parse_does() {
    assert_eq!(parse_usize_or("800", 1), 800);
    assert_eq!(parse_usize_or("+42", 1), 42);
    assert_eq!(parse_usize_or("007", 1), 7);
    assert_eq!(parse_usize_or("0", 1), 0);
}

#[test]
fn text_that_is_no_number_gives_the_default() {
    assert_eq!(parse_usize_or("", 100), 100);
    assert_eq!(parse_usize_or("-1", 100), 100);
    assert_eq!(parse_usize_or(" 5", 100), 100);
    assert_eq!(parse_usize_or("5x", 100), 100);
    assert_eq!(parse_usize_or("+", 100), 100);
    assert_eq!(parse_usize_or("99999999999999999999999", 600), 600);
    assert_eq!(parse_usize_or("٣", 600), 600);
}

#[test]
fn largest_usize_is_read() {
    let text = usize::MAX.to_string();
    assert_eq!(parse_usize_or(&text, 0), usize::MAX);
}
