use sensor_analysis::config::{
    find_absent, find_repeat, ConfigNames, Display, Roles, ValidationError,
};

fn s(text: &str) -> String {
    text.to_string()
}

fn config() -> ConfigNames {
    ConfigNames {
        colorspaces: vec![s("linear"), s("srgb"), s("raw")],
        roles: Roles {
            reference: Some(s("linear")),
            aces_interchange: None,
            cie_xyz_d65_interchange: None,
            default: Some(s("srgb")),
            data: Some(s("raw")),
            other: vec![(s("scene_linear"), s("linear")), (s("color_picking"), s("srgb"))],
        },
        displays: vec![
            Display { name: s("monitor"), views: vec![(s("standard"), s("srgb"))] },
            Display {
                name: s("projector"),
                views: vec![(s("standard"), s("srgb")), (s("raw"), s("raw"))],
            },
        ],
        looks: vec![s("warm"), s("cold")],
    }
}

#[test]
fn default_roles_are_empty() {
    let roles = Roles::default();
    assert_eq!(
        roles,
        Roles {
            reference: None,
            aces_interchange: None,
            cie_xyz_d65_interchange: None,
            default: None,
            data: None,
            other: vec![],
        }
    );
}

#[test]
fn consistent_names_are_valid() {
    assert_eq!(config().validate(), Ok(()));
    let empty = ConfigNames {
        colorspaces: vec![],
        roles: Roles::default(),
        displays: vec![],
        looks: vec![],
    };
    assert_eq!(empty.validate(), Ok(()));
}

#[test]
fn duplicate_colorspace_is_found() {
    let mut c = config();
    c.colorspaces.push(s("srgb"));
    assert_eq!(c.validate(), Err(ValidationError::DuplicateColorSpace(s("srgb"))));
}

#[test]
fn duplicate_role_is_found() {
    let mut c = config();
    c.roles.other.push((s("default"), s("srgb")));
    assert_eq!(c.validate(), Err(ValidationError::DuplicateRole(s("default"))));
    let mut c = config();
    c.roles.other.push((s("scene_linear"), s("raw")));
    assert_eq!(c.validate(), Err(ValidationError::DuplicateRole(s("scene_linear"))));
}

#[test]
fn duplicate_display_is_found() {
    let mut c = config();
    c.displays.push(Display { name: s("monitor"), views: vec![] });
    assert_eq!(c.validate(), Err(ValidationError::DuplicateDisplay(s("monitor"))));
}

#[test]
fn duplicate_look_is_found() {
    let mut c = config();
    c.looks.push(s("warm"));
    assert_eq!(c.validate(), Err(ValidationError::DuplicateLook(s("warm"))));
}

#[test]
fn absent_colorspace_is_found() {
    let mut c = config();
    c.roles.aces_interchange = Some(s("aces"));
    assert_eq!(c.validate(), Err(ValidationError::ReferenceToAbsentColorSpace(s("aces"))));
    let mut c = config();
    c.roles.other.push((s("texture_paint"), s("paint")));
    assert_eq!(c.validate(), Err(ValidationError::ReferenceToAbsentColorSpace(s("paint"))));
    let mut c = config();
    c.displays[1].views.push((s("film"), s("film_space")));
    assert_eq!(
        c.validate(),
        Err(ValidationError::ReferenceToAbsentColorSpace(s("film_space")))
    );
}

#[test]
fn first_thing_wrong_is_reported() {
    // Duplicates come before absent references, colour spaces before
    // roles, roles before displays, displays before looks.
    let mut c = config();
    c.roles.reference = Some(s("nowhere"));
    c.looks.push(s("cold"));
    assert_eq!(c.validate(), Err(ValidationError::DuplicateLook(s("cold"))));
    c.displays.push(Display { name: s("projector"), views: vec![] });
    assert_eq!(c.validate(), Err(ValidationError::DuplicateDisplay(s("projector"))));
    c.roles.other.push((s("data"), s("raw")));
    assert_eq!(c.validate(), Err(ValidationError::DuplicateRole(s("data"))));
    c.colorspaces.push(s("raw"));
    assert_eq!(c.validate(), Err(ValidationError::DuplicateColorSpace(s("raw"))));
    // Of two absent references the fixed role's comes first.
    let mut c = config();
    c.displays[0].views.push((s("film"), s("film_space")));
    c.roles.data = Some(s("gone"));
    assert_eq!(c.validate(), Err(ValidationError::ReferenceToAbsentColorSpace(s("gone"))));
    // Of two repeats the one that is repeated first.
    let mut c = config();
    c.colorspaces = vec![s("a"), s("b"), s("b"), s("a")];
    assert_eq!(c.validate(), Err(ValidationError::DuplicateColorSpace(s("b"))));
}

#[test]
fn repeats_and_absences_are_found_by_place() {
    assert_eq!(find_repeat(&vec![s("a"), s("b"), s("c")]), None);
    assert_eq!(find_repeat(&vec![s("a"), s("b"), s("a"), s("b")]), Some(2));
    assert_eq!(find_repeat(&vec![]), None);
    assert_eq!(find_absent(&vec![s("a"), s("x"), s("y")], &vec![s("a"), s("b")]), Some(1));
    assert_eq!(find_absent(&vec![s("b"), s("a")], &vec![s("a"), s("b")]), None);
    assert_eq!(find_absent(&vec![], &vec![]), None);
    assert_eq!(find_absent(&vec![s("a")], &vec![]), Some(0));
}

#[test]
fn role_named_twice_among_the_others_is_a_duplicate() {
    // The other roles are a list: the same role can stand twice in it,
    // and that is reported like a fixed role named again.
    let mut c = config();
    c.roles.other = vec![(s("matte_paint"), s("srgb")), (s("matte_paint"), s("raw"))];
    assert_eq!(c.validate(), Err(ValidationError::DuplicateRole(s("matte_paint"))));
}
