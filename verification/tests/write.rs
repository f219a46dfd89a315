use rosm_mvt::common::Value;
use rosm_mvt::error::{InvalidGeometry, SpecViolation};
use rosm_mvt::geometry::{EncodedGeometry, GeomType};
use rosm_mvt::write::{EncodableGeometry, Feature, Geometry, Layer, Tile};

fn create_test_feature() -> Feature {
    let geometry = EncodedGeometry::new(GeomType::Unknown, vec![]);
    Feature::new(geometry)
}

#[test]
fn empty_tile() {
    let result = Tile::new(vec![]);
    assert_eq!(result, Err(SpecViolation::EmptyTile));
}

#[test]
fn empty_layer() {
    let result = Layer::new("test", vec![]);
    assert_eq!(result, Err(SpecViolation::EmptyLayer));
}

#[test]
fn identical_layer_names() {
    let features = vec![create_test_feature()];
    let identical_name = "test";
    let layers = vec![
        Layer::new(identical_name, features.clone()).unwrap(),
        Layer::new(identical_name, features).unwrap(),
    ];
    let result = Tile::new(layers);
    assert_eq!(result, Err(SpecViolation::IdenticalLayerNames(identical_name.into())));
}

#[test]
fn identical_feature_ids() {
    let mut feature = create_test_feature();
    feature.id = Some(1);
    let features = vec![feature.clone(), feature];
    let result = Layer::new("test", features);
    assert_eq!(result, Err(SpecViolation::IdenticalFeatureIds(1)));
}

#[test]
fn identical_attribute_keys() {
    let mut feature = create_test_feature();
    let identical_key = "one";
    feature.add_tag(identical_key, Value::Bool(false));
    feature.add_tag(identical_key, Value::Bool(true));

    let features = vec![feature.clone(), feature];
    let result = Layer::new("test", features);
    assert_eq!(result, Err(SpecViolation::IdenticalAttributeKeys(identical_key.into())));
}

#[test]
fn invalid_line() {
    let geometry = Geometry::Line(&[]);
    assert_eq!(geometry.encode(), Err(InvalidGeometry::EmptyLineGeometry));

    let geometry = Geometry::Line(&[(0, 0)]);
    assert_eq!(geometry.encode(), Err(InvalidGeometry::InvalidLineGeometry));

    let geometry = Geometry::MultiLine(&[&[]]);
    assert_eq!(geometry.encode(), Err(InvalidGeometry::EmptyLineGeometry));

    let geometry = Geometry::MultiLine(&[&[(0, 0)]]);
    assert_eq!(geometry.encode(), Err(InvalidGeometry::InvalidLineGeometry));
}

#[test]
fn invalid_polygon() {
    let geometry = Geometry::Polygon(&[], &[]);
    assert_eq!(geometry.encode(), Err(InvalidGeometry::EmptyPolygonGeometry));

    let geometry = Geometry::Polygon(&[(0, 0), (1, 1), (0, 1)], &[&[]]);
    assert_eq!(geometry.encode(), Err(InvalidGeometry::EmptyPolygonGeometry));

    let geometry = Geometry::Polygon(&[(0, 0), (1, 1)], &[&[]]);
    assert_eq!(geometry.encode(), Err(InvalidGeometry::InvalidPolygonGeometry));

    let geometry = Geometry::Polygon(&[(0, 0), (1, 1), (0, 1)], &[&[(0, 0), (1, 1)]]);
    assert_eq!(geometry.encode(), Err(InvalidGeometry::InvalidPolygonGeometry));

    let geometry = Geometry::Polygon(&[(0, 0), (0, 1), (1, 1)], &[]);
    assert_eq!(geometry.encode(), Err(InvalidGeometry::InvalidPolygonGeometry));

    let geometry = Geometry::Polygon(&[(0, 0), (1, 1), (0, 1)], &[&[(0, 0), (1, 1), (0, 1)]]);
    assert_eq!(geometry.encode(), Err(InvalidGeometry::InvalidPolygonGeometry));
}

#[test]
fn empty_point_geometries() {
    let geometry = Geometry::MultiPoint(&[]);
    assert_eq!(geometry.encode(), Err(InvalidGeometry::EmptyPointGeometry));

    let geometry = Geometry::MultiLine(&[]);
    assert_eq!(geometry.encode(), Err(InvalidGeometry::EmptyLineGeometry));
}

#[test]
fn zero_area_exterior_ring() {
    // Collinear vertices: the shoelace sum is zero.
    let geometry = Geometry::Polygon(&[(0, 0), (1, 1), (2, 2)], &[]);
    assert_eq!(geometry.encode(), Err(InvalidGeometry::InvalidPolygonGeometry));
}

#[test]
fn shared_tags_share_indices() {
    let mut first = Feature::new(EncodedGeometry::new(GeomType::Unknown, vec![]));
    first.add_tag("kind", Value::String("river".to_owned()));
    first.add_tag("width", Value::Int(7));

    let mut second = Feature::new(EncodedGeometry::new(GeomType::Unknown, vec![]));
    second.add_tag("kind", Value::String("river".to_owned()));
    second.add_tag("name", Value::String("spree".to_owned()));

    let layer = Layer::new("water", vec![first, second]).unwrap();

    // Deduplicated tables in first-seen order.
    assert_eq!(layer.keys(), &vec!["kind".to_owned(), "width".to_owned(), "name".to_owned()]);
    assert_eq!(
        layer.values(),
        &vec![
            Value::String("river".to_owned()),
            Value::Int(7),
            Value::String("spree".to_owned()),
        ]
    );

    let features = layer.features();
    // The shared ("kind", "river") pair references the same indices in both
    // features.
    assert_eq!(features[0].tags, vec![0, 0, 1, 1]);
    assert_eq!(features[1].tags, vec![0, 0, 2, 2]);
}

#[test]
fn absent_id_serializes_as_zero() {
    let feature = create_test_feature();
    let layer = Layer::new("test", vec![feature]).unwrap();
    assert_eq!(layer.features()[0].id, 0);
    assert_eq!(layer.extent, 4096);
}

#[test]
fn geometry_error_descriptions() {
    assert_eq!(InvalidGeometry::EmptyPointGeometry.description(), "Empty point geometry");
    assert_eq!(
        InvalidGeometry::InvalidLineGeometry.description(),
        "A line should contain a least two points"
    );
}

#[test]
fn violation_descriptions_carry_offending_value() {
    let description = SpecViolation::IdenticalFeatureIds(1234).description();
    assert_eq!(
        description,
        "4.2. Features: If a feature has an id field, the value of the id SHOULD be unique \
         among the features of the parent layer. Offending value: 1234"
    );
    let description = SpecViolation::IdenticalLayerNames("dup".to_owned()).description();
    assert!(description.ends_with("Offending value: dup"));
}
