use yogamat::{Asana, AsanaData, DecodeError, Joint};

fn joint(joint_id: i32, pose_id: i32, v: [f32; 9]) -> Joint {
    Joint {
        joint_id,
        pose_id,
        up_x: v[0].to_bits(),
        up_y: v[1].to_bits(),
        up_z: v[2].to_bits(),
        forward_x: v[3].to_bits(),
        forward_y: v[4].to_bits(),
        forward_z: v[5].to_bits(),
        origin_x: v[6].to_bits(),
        origin_y: v[7].to_bits(),
        origin_z: v[8].to_bits(),
    }
}

fn asana(asana_id: i32, pose_id: i32, sanskrit: &str, english: &str, notes: Option<&str>) -> Asana {
    Asana {
        asana_id,
        pose_id,
        sanskrit: sanskrit.to_string(),
        english: english.to_string(),
        notes: notes.map(|n| n.to_string()),
    }
}

fn sample() -> AsanaData {
    let mut db = AsanaData::new(vec![
        asana(3, 10, "Tāḍāsana", "Mountain", Some("stand tall")),
        asana(3, 11, "Vṛkṣāsana", "Tree", None),
        asana(-7, -1, "", "Empty", Some("")),
    ]);
    db.insert_joints(10, vec![
        joint(1, 10, [0.0, 1.0, 0.0, 0.0, 0.0, 1.0, 0.5, -2.25, 3.0]),
        joint(2, 10, [1.0, 0.0, 0.0, 0.0, 1.0, 0.0, -0.0, 1e-3, 12.5]),
    ])
    .unwrap();
    db.insert_joints(11, vec![]).unwrap();
    db.insert_joints(-1, vec![joint(i32::MIN, i32::MAX, [f32::MAX, f32::MIN, 0.1, 0.2, 0.3, 0.4, 0.5, 0.6, 0.7])])
        .unwrap();
    db
}

fn same_asanas(a: &[Asana], b: &[Asana]) {
    assert_eq!(a.len(), b.len());
    for (x, y) in a.iter().zip(b.iter()) {
        assert_eq!(x.asana_id, y.asana_id);
        assert_eq!(x.pose_id, y.pose_id);
        assert_eq!(x.sanskrit, y.sanskrit);
        assert_eq!(x.english, y.english);
        assert_eq!(x.notes, y.notes);
    }
}

#[test]
fn round_trip_reproduces_database() {
    let db = sample();
    let bytes = db.encode();
    let back = AsanaData::decode(&bytes).unwrap();
    same_asanas(&db.asanas, &back.asanas);
    assert_eq!(db.poses, back.poses);
    assert_eq!(back.encode(), bytes);
}

#[test]
fn round_trip_empty_database() {
    let db = AsanaData::new(vec![]);
    let bytes = db.encode();
    assert_eq!(bytes, vec![0u8; 16]);
    let back = AsanaData::decode(&bytes).unwrap();
    assert!(back.asanas.is_empty());
    assert!(back.poses.is_empty());
}

#[test]
fn encoding_has_exact_layout() {
    let mut db = AsanaData::new(vec![asana(1, -2, "a", "", None)]);
    db.insert_joints(-2, vec![]).unwrap();
    let mut expected: Vec<u8> = vec![1, 0, 0, 0, 0, 0, 0, 0];
    expected.extend_from_slice(&[1, 0, 0, 0]);
    expected.extend_from_slice(&[0xfe, 0xff, 0xff, 0xff]);
    expected.extend_from_slice(&[1, 0, 0, 0, 0, 0, 0, 0, b'a']);
    expected.extend_from_slice(&[0; 8]);
    expected.push(0);
    expected.extend_from_slice(&[1, 0, 0, 0, 0, 0, 0, 0]);
    expected.extend_from_slice(&[0xfe, 0xff, 0xff, 0xff]);
    expected.extend_from_slice(&[0; 8]);
    assert_eq!(db.encode(), expected);
}

#[test]
fn joint_record_is_forty_four_bytes() {
    let mut db = AsanaData::new(vec![]);
    db.insert_joints(5, vec![joint(7, 5, [1.0, 2.0, 3.0, 4.0, 5.0, 6.0, 7.0, 8.0, 9.0])]).unwrap();
    let bytes = db.encode();
    assert_eq!(bytes.len(), 8 + 8 + 4 + 8 + 44);
    assert_eq!(&bytes[28..32], &[7, 0, 0, 0]);
    assert_eq!(&bytes[36..40], &1.0f32.to_le_bytes());
    assert_eq!(&bytes[68..72], &9.0f32.to_le_bytes());
}

#[test]
fn encoding_matches_bincode_fixed_int_little_endian() {
    let db = sample();
    let asanas: Vec<(i32, i32, String, String, Option<String>)> = db
        .asanas
        .iter()
        .map(|a| (a.asana_id, a.pose_id, a.sanskrit.clone(), a.english.clone(), a.notes.clone()))
        .collect();
    let poses: Vec<(i32, Vec<(i32, i32, f32, f32, f32, f32, f32, f32, f32, f32, f32)>)> = db
        .poses
        .iter()
        .map(|(id, js)| {
            let js = js
                .iter()
                .map(|j| {
                    (
                        j.joint_id,
                        j.pose_id,
                        f32::from_bits(j.up_x),
                        f32::from_bits(j.up_y),
                        f32::from_bits(j.up_z),
                        f32::from_bits(j.forward_x),
                        f32::from_bits(j.forward_y),
                        f32::from_bits(j.forward_z),
                        f32::from_bits(j.origin_x),
                        f32::from_bits(j.origin_y),
                        f32::from_bits(j.origin_z),
                    )
                })
                .collect();
            (*id, js)
        })
        .collect();
    let config = bincode::config::standard().with_little_endian().with_fixed_int_encoding();
    let theirs = bincode::encode_to_vec(&(asanas, poses), config).unwrap();
    assert_eq!(db.encode(), theirs);
}

#[test]
fn truncated_buffer_is_malformed() {
    let bytes = sample().encode();
    let cut = &bytes[..bytes.len() - 1];
    assert_eq!(AsanaData::decode(cut).err(), Some(DecodeError::Malformed));
}

#[test]
fn every_proper_prefix_is_malformed() {
    let mut db = AsanaData::new(vec![asana(1, 2, "ab", "c", Some("d"))]);
    db.insert_joints(2, vec![joint(1, 2, [0.0; 9])]).unwrap();
    let bytes = db.encode();
    for n in 0..bytes.len() {
        assert_eq!(AsanaData::decode(&bytes[..n]).err(), Some(DecodeError::Malformed), "prefix {}", n);
    }
}

#[test]
fn empty_buffer_is_malformed() {
    assert_eq!(AsanaData::decode(&[]).err(), Some(DecodeError::Malformed));
}

#[test]
fn trailing_byte_is_malformed() {
    let mut bytes = sample().encode();
    bytes.push(0);
    assert_eq!(AsanaData::decode(&bytes).err(), Some(DecodeError::Malformed));
}

#[test]
fn oversized_length_prefix_is_malformed() {
    let mut bytes = vec![1u8, 0, 0, 0, 0, 0, 0, 0, 1, 0, 0, 0, 2, 0, 0, 0];
    bytes.extend_from_slice(&[0xff, 0xff, 0xff, 0xff, 0xff, 0xff, 0xff, 0x7f]);
    bytes.extend_from_slice(b"abc");
    assert_eq!(AsanaData::decode(&bytes).err(), Some(DecodeError::Malformed));
}

#[test]
fn huge_list_count_is_malformed() {
    let bytes = vec![0xffu8; 16];
    assert_eq!(AsanaData::decode(&bytes).err(), Some(DecodeError::Malformed));
}

#[test]
fn bad_option_tag_is_malformed() {
    let db = AsanaData::new(vec![asana(1, 2, "x", "y", None)]);
    let mut bytes = db.encode();
    // count, two ids, "x", "y": the tag follows
    let tag_at = 8 + 4 + 4 + 9 + 9;
    assert_eq!(bytes[tag_at], 0);
    bytes[tag_at] = 2;
    assert_eq!(AsanaData::decode(&bytes).err(), Some(DecodeError::Malformed));
}

#[test]
fn invalid_utf8_is_malformed() {
    let db = AsanaData::new(vec![asana(1, 2, "x", "y", None)]);
    let mut bytes = db.encode();
    let x_at = 8 + 4 + 4 + 8;
    assert_eq!(bytes[x_at], b'x');
    bytes[x_at] = 0xff;
    assert_eq!(AsanaData::decode(&bytes).err(), Some(DecodeError::Malformed));
}

#[test]
fn duplicate_pose_ids_in_bytes_are_reported() {
    let mut db = AsanaData::new(vec![]);
    db.insert_joints(4, vec![]).unwrap();
    db.insert_joints(5, vec![]).unwrap();
    let mut bytes = db.encode();
    // the second key sits after both counts, the first key and its empty list
    let second_key_at = 8 + 8 + 4 + 8;
    assert_eq!(bytes[second_key_at], 5);
    bytes[second_key_at] = 4;
    assert_eq!(AsanaData::decode(&bytes).err(), Some(DecodeError::DuplicatePose));
}

#[test]
fn duplicate_ids_behind_a_truncation_are_malformed() {
    let mut db = AsanaData::new(vec![]);
    db.insert_joints(4, vec![]).unwrap();
    db.insert_joints(5, vec![]).unwrap();
    let mut bytes = db.encode();
    let second_key_at = 8 + 8 + 4 + 8;
    bytes[second_key_at] = 4;
    bytes.pop();
    assert_eq!(AsanaData::decode(&bytes).err(), Some(DecodeError::Malformed));
}
