use rosm_mvt::geometry::{encode_param, EncodableGeometry, Geometry};

fn unzigzag(u: u32) -> i32 {
    ((u >> 1) as i32) ^ (-((u & 1) as i32))
}

#[test]
fn zigzag_representative_values() {
    assert_eq!(encode_param(0), 0);
    assert_eq!(encode_param(1), 2);
    assert_eq!(encode_param(-1), 1);
    assert_eq!(encode_param(i32::MIN + 1), 4294967293);

    for n in [0, 1, -1, i32::MIN + 1] {
        assert_eq!(unzigzag(encode_param(n)), n);
    }
    for u in [0u32, 1, 2, 3, 4294967293, 4294967294, 4294967295] {
        assert_eq!(encode_param(unzigzag(u)), u);
    }
}

#[test]
fn point_command_stream() {
    let encoded = Geometry::Point((25, 17)).encode().unwrap();
    assert_eq!(encoded.commands(), &vec![9, 50, 34]);
}

#[test]
fn line_command_stream() {
    let encoded = Geometry::Line(&[(2, 2), (2, 10), (10, 10)]).encode().unwrap();
    // One move-to, then a run of two line-tos.
    assert_eq!(encoded.commands(), &vec![9, 4, 4, 18, 0, 16, 16, 0]);
}

#[test]
fn polygon_command_stream() {
    let encoded = Geometry::Polygon(&[(3, 6), (8, 12), (20, 34)], &[]).encode().unwrap();
    // Move-to, a run of two line-tos, then a close-path word with a run
    // length of one.
    assert_eq!(encoded.commands(), &vec![9, 6, 12, 18, 10, 12, 24, 44, 15]);
}

#[test]
fn multipoint_command_stream() {
    let encoded = Geometry::MultiPoint(&[(5, 7), (3, 2)]).encode().unwrap();
    // One move-to run of length two, deltas relative to the moving cursor.
    assert_eq!(encoded.commands(), &vec![17, 10, 14, 3, 9]);
}

#[test]
fn encode_is_deterministic() {
    let line: &[(i32, i32)] = &[(10, 20), (30, 40), (-5, -5)];
    let first = Geometry::Line(line).encode().unwrap();
    let second = Geometry::Line(line).encode().unwrap();
    assert_eq!(first, second);
}

#[test]
fn delta_round_trip_reconstructs_coordinates() {
    // Decode the emitted stream by hand and compare against the input.
    let points: &[(i32, i32)] = &[(100, -200), (300, 42), (-7, 9), (-7, 10)];
    let encoded = Geometry::Line(points).encode().unwrap();
    let words = encoded.commands();

    let mut decoded: Vec<(i32, i32)> = Vec::new();
    let mut cursor = (0i32, 0i32);
    let mut i = 0;
    while i < words.len() {
        let word = words[i];
        let id = word & 0x7;
        let count = (word >> 3) as usize;
        i += 1;
        if id == 7 {
            continue;
        }
        assert!(id == 1 || id == 2);
        for _ in 0..count {
            let dx = unzigzag(words[i]);
            let dy = unzigzag(words[i + 1]);
            i += 2;
            cursor = (cursor.0.wrapping_add(dx), cursor.1.wrapping_add(dy));
            decoded.push(cursor);
        }
    }
    assert_eq!(decoded, points.to_vec());
}

#[test]
fn multiline_command_stream() {
    let encoded = Geometry::MultiLine(&[&[(0, 0), (5, 0)], &[(1, 1), (2, 2)]]).encode().unwrap();
    // Two move-to/line-to alternations; the cursor carries across lines.
    assert_eq!(encoded.commands(), &vec![9, 0, 0, 10, 10, 0, 9, 7, 2, 10, 2, 2]);
}

#[test]
fn polygon_with_hole_command_stream() {
    let exterior: &[(i32, i32)] = &[(0, 0), (10, 0), (10, 10), (0, 10)];
    let interior: &[(i32, i32)] = &[(2, 2), (2, 8), (8, 8)];
    let encoded = Geometry::Polygon(exterior, &[interior]).encode().unwrap();
    assert_eq!(
        encoded.commands(),
        &vec![9, 0, 0, 26, 20, 0, 0, 20, 19, 0, 15, 9, 4, 15, 18, 0, 12, 12, 0, 15]
    );
}
