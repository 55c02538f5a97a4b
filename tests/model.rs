use yogamat::{Asana, AsanaData, DuplicatePose, Joint};

fn asana(pose_id: i32, sanskrit: &str, english: &str) -> Asana {
    Asana {
        asana_id: pose_id * 10,
        pose_id,
        sanskrit: sanskrit.to_string(),
        english: english.to_string(),
        notes: None,
    }
}

fn joint(joint_id: i32, pose_id: i32) -> Joint {
    Joint {
        joint_id,
        pose_id,
        up_x: 0,
        up_y: 1.0f32.to_bits(),
        up_z: 0,
        forward_x: 0,
        forward_y: 0,
        forward_z: 1.0f32.to_bits(),
        origin_x: 0,
        origin_y: 0,
        origin_z: 0,
    }
}

#[test]
fn insert_fresh_pose_id_succeeds_and_is_retrievable() {
    let mut db = AsanaData::new(vec![asana(1, "A", "a")]);
    let joints = vec![joint(1, 1), joint(2, 1), joint(3, 1)];
    assert_eq!(db.insert_joints(1, joints.clone()), Ok(()));
    assert_eq!(db.joints_of(1), Some(&joints));
    assert_eq!(db.joints_of(2), None);
}

#[test]
fn insert_existing_pose_id_fails_and_keeps_old_joints() {
    let mut db = AsanaData::new(vec![]);
    let first = vec![joint(1, 7)];
    db.insert_joints(7, first.clone()).unwrap();
    assert_eq!(db.insert_joints(7, vec![joint(9, 7), joint(8, 7)]), Err(DuplicatePose { pose_id: 7 }));
    assert_eq!(db.joints_of(7), Some(&first));
    assert_eq!(db.poses.len(), 1);
}

#[test]
fn empty_joint_list_counts_as_present() {
    let mut db = AsanaData::new(vec![]);
    db.insert_joints(3, vec![]).unwrap();
    assert_eq!(db.joints_of(3), Some(&vec![]));
    assert!(db.insert_joints(3, vec![joint(1, 3)]).is_err());
}

#[test]
fn joint_lists_keep_insertion_order() {
    let mut db = AsanaData::new(vec![]);
    db.insert_joints(5, vec![]).unwrap();
    db.insert_joints(-2, vec![]).unwrap();
    db.insert_joints(9, vec![]).unwrap();
    let keys: Vec<i32> = db.poses.iter().map(|e| e.0).collect();
    assert_eq!(keys, vec![5, -2, 9]);
}

#[test]
fn find_pose_by_name_returns_first_exact_match() {
    let db = AsanaData::new(vec![
        asana(1, "Tadasana", "Mountain"),
        asana(2, "Vrksasana", "Tree"),
        asana(3, "Tadasana", "Mountain variation"),
    ]);
    assert_eq!(db.find_pose_by_name(&"Tadasana".to_string()), Some(0));
    assert_eq!(db.find_pose_by_name(&"Vrksasana".to_string()), Some(1));
    assert_eq!(db.find_pose_by_name(&"tadasana".to_string()), None);
    assert_eq!(db.find_pose_by_name(&"Tree".to_string()), None);
}

#[test]
fn load_pose_returns_joints_of_named_pose() {
    let mut db = AsanaData::new(vec![asana(1, "Tadasana", "Mountain"), asana(2, "Vrksasana", "Tree")]);
    db.insert_joints(1, vec![joint(1, 1)]).unwrap();
    db.insert_joints(2, vec![joint(1, 2), joint(2, 2)]).unwrap();
    assert_eq!(db.load_pose(&"Vrksasana".to_string()), Some(&vec![joint(1, 2), joint(2, 2)]));
    assert_eq!(db.load_pose(&"Tadasana".to_string()), Some(&vec![joint(1, 1)]));
}

#[test]
fn load_pose_misses_unknown_name_and_missing_joints() {
    let mut db = AsanaData::new(vec![asana(1, "Tadasana", "Mountain"), asana(2, "Vrksasana", "Tree")]);
    db.insert_joints(1, vec![joint(1, 1)]).unwrap();
    assert_eq!(db.load_pose(&"Sirsasana".to_string()), None);
    assert_eq!(db.load_pose(&"Vrksasana".to_string()), None);
}

#[test]
fn load_pose_uses_first_pose_with_the_name() {
    let mut db = AsanaData::new(vec![asana(1, "Same", "x"), asana(2, "Same", "y")]);
    db.insert_joints(2, vec![joint(5, 2)]).unwrap();
    assert_eq!(db.load_pose(&"Same".to_string()), None);
    db.insert_joints(1, vec![joint(4, 1)]).unwrap();
    assert_eq!(db.load_pose(&"Same".to_string()), Some(&vec![joint(4, 1)]));
}
