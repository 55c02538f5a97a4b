use yogamat::{rank_matches, Asana, AsanaData, Joint, NameField, YogaAssets};

fn asana(pose_id: i32, sanskrit: &str, english: &str) -> Asana {
    Asana {
        asana_id: pose_id,
        pose_id,
        sanskrit: sanskrit.to_string(),
        english: english.to_string(),
        notes: None,
    }
}

fn db(names: &[(&str, &str)]) -> AsanaData {
    AsanaData::new(names.iter().enumerate().map(|(i, (s, e))| asana(i as i32, s, e)).collect())
}

fn position(r: &[usize], i: usize) -> usize {
    r.iter().position(|&x| x == i).unwrap()
}

#[test]
fn rank_matches_orders_by_score_then_index() {
    let scores = vec![Some(5), None, Some(7), Some(5), Some(-1), None, Some(7)];
    assert_eq!(rank_matches(&scores), vec![2, 6, 0, 3, 4]);
}

#[test]
fn rank_matches_of_nothing_is_empty() {
    assert_eq!(rank_matches(&vec![]), Vec::<usize>::new());
    assert_eq!(rank_matches(&vec![None, None]), Vec::<usize>::new());
}

#[test]
fn rank_matches_equal_scores_keep_scan_order() {
    assert_eq!(rank_matches(&vec![Some(3), Some(3), Some(3)]), vec![0, 1, 2]);
}

#[test]
fn contiguous_match_ranks_at_or_above_loose_match() {
    let d = db(&[("Abc", "one"), ("Aabbcc", "two"), ("Xabc", "three")]);
    let r = d.search("abc", NameField::Sanskrit);
    assert_eq!(r.len(), 3);
    assert!(position(&r, 0) < position(&r, 1));
}

#[test]
fn query_with_no_ordered_match_finds_nothing() {
    let d = db(&[("Tadasana", "Mountain"), ("Vrksasana", "Tree")]);
    assert!(d.search("zzz", NameField::Sanskrit).is_empty());
    assert!(d.search("cba", NameField::Sanskrit).is_empty());
    assert!(d.search("nm", NameField::English).is_empty());
}

#[test]
fn toggling_the_field_recomputes_from_that_field() {
    let d = db(&[("Tadasana", "Mountain"), ("Vrksasana", "Tree")]);
    assert_eq!(d.search("tree", NameField::English), vec![1]);
    assert_eq!(d.search("tree", NameField::Sanskrit), Vec::<usize>::new());
    assert_eq!(d.search("vrk", NameField::Sanskrit), vec![1]);
    assert_eq!(d.search("vrk", NameField::English), Vec::<usize>::new());
}

#[test]
fn query_is_lower_cased_before_matching() {
    let d = db(&[("xabc", "q")]);
    assert_eq!(d.search("ABC", NameField::Sanskrit), vec![0]);
}

#[test]
fn lower_case_query_ignores_ascii_case_of_names() {
    let d = db(&[("TADASANA", "q"), ("tadasana", "q")]);
    let r = d.search("tada", NameField::Sanskrit);
    assert_eq!(r.len(), 2);
}

#[test]
fn empty_query_lists_every_pose_in_order() {
    let d = db(&[("a", "b"), ("c", "d"), ("e", "f")]);
    assert_eq!(d.search("", NameField::English), vec![0, 1, 2]);
    assert_eq!(d.search("", NameField::Sanskrit), vec![0, 1, 2]);
}

#[test]
fn search_on_empty_database_is_empty() {
    let d = db(&[]);
    assert!(d.search("a", NameField::English).is_empty());
}

#[test]
fn browser_starts_with_every_pose_listed() {
    let y = YogaAssets::new(db(&[("a", "b"), ("c", "d")]));
    assert_eq!(y.possible_asanas, vec![0, 1]);
    assert_eq!(y.current_idx, 0);
    assert!(!y.check_sanskrit);
    assert!(y.asana_name_entry.is_empty());
}

#[test]
fn browser_search_uses_entry_and_field() {
    let mut y = YogaAssets::new(db(&[("Tadasana", "Mountain"), ("Vrksasana", "Tree")]));
    y.asana_name_entry = "Tree".to_string();
    y.search();
    assert_eq!(y.possible_asanas, vec![1]);
    y.check_sanskrit = true;
    y.search();
    assert!(y.possible_asanas.is_empty());
    y.asana_name_entry = "asana".to_string();
    y.search();
    assert_eq!(y.possible_asanas.len(), 2);
}

#[test]
fn browser_steps_wrap_around() {
    let mut y = YogaAssets::new(db(&[("a", "b"), ("c", "d"), ("e", "f")]));
    y.previous_pose();
    assert_eq!(y.current_idx, 2);
    y.next_pose();
    assert_eq!(y.current_idx, 0);
    y.next_pose();
    y.next_pose();
    assert_eq!(y.current_idx, 2);
    y.previous_pose();
    assert_eq!(y.current_idx, 1);
}

#[test]
fn browser_current_pose_follows_selection() {
    let mut d = db(&[("a", "b"), ("c", "d")]);
    let j = Joint {
        joint_id: 1,
        pose_id: 1,
        up_x: 0,
        up_y: 0,
        up_z: 0,
        forward_x: 0,
        forward_y: 0,
        forward_z: 0,
        origin_x: 0,
        origin_y: 0,
        origin_z: 0,
    };
    d.insert_joints(1, vec![j]).unwrap();
    let mut y = YogaAssets::new(d);
    assert_eq!(y.current_pose(), None);
    y.next_pose();
    assert_eq!(y.current_pose(), Some(&vec![j]));
}
