//! The pose database: named poses, and for each pose id the frames of its joints.

use vstd::prelude::*;

verus! {

/// One joint's local frame: an up vector, a forward vector and an origin.
///
/// Each vector component is held as the bit pattern of an IEEE-754
/// single-precision number, exactly as it is stored on disk.
#[derive(Clone, Copy, Debug, PartialEq, Eq, Structural)]
pub struct Joint {
    pub joint_id: i32,
    pub pose_id: i32,
    pub up_x: u32,
    pub up_y: u32,
    pub up_z: u32,
    pub forward_x: u32,
    pub forward_y: u32,
    pub forward_z: u32,
    pub origin_x: u32,
    pub origin_y: u32,
    pub origin_z: u32,
}

/// A named body position.
#[derive(Debug)]
pub struct Asana {
    pub asana_id: i32,
    pub pose_id: i32,
    pub sanskrit: String,
    pub english: String,
    pub notes: Option<String>,
}

/// What an [`Asana`] holds, with its text as character sequences.
pub struct AsanaView {
    pub asana_id: i32,
    pub pose_id: i32,
    pub sanskrit: Seq<char>,
    pub english: Seq<char>,
    pub notes: Option<Seq<char>>,
}

pub open spec fn opt_string_view(o: Option<String>) -> Option<Seq<char>> {
    match o {
        Some(s) => Some(s@),
        None => None,
    }
}

impl View for Asana {
    type V = AsanaView;

    open spec fn view(&self) -> AsanaView {
        AsanaView {
            asana_id: self.asana_id,
            pose_id: self.pose_id,
            sanskrit: self.sanskrit@,
            english: self.english@,
            notes: opt_string_view(self.notes),
        }
    }
}

/// The joints recorded for one pose id.
pub type PoseEntry = (i32, Vec<Joint>);

/// What a [`PoseEntry`] holds.
pub type PoseEntryView = (i32, Seq<Joint>);

/// The whole database: the poses in order, and the joint lists keyed by pose id
/// in the order in which they were inserted.
pub struct AsanaData {
    pub asanas: Vec<Asana>,
    pub poses: Vec<PoseEntry>,
}

/// What an [`AsanaData`] holds.
pub struct AsanaDataView {
    pub asanas: Seq<AsanaView>,
    pub poses: Seq<PoseEntryView>,
}

/// No pose id has two joint lists.
pub open spec fn keys_unique(p: Seq<PoseEntryView>) -> bool {
    forall|i: int, j: int| 0 <= i < j < p.len() ==> #[trigger] p[i].0 != #[trigger] p[j].0
}

/// True when `k` has a joint list in `p`.
pub open spec fn has_key(p: Seq<PoseEntryView>, k: i32) -> bool {
    exists|i: int| 0 <= i < p.len() && #[trigger] p[i].0 == k
}

/// The joint lists of `p` as a map from pose id.
pub open spec fn pose_map(p: Seq<PoseEntryView>) -> Map<i32, Seq<Joint>> {
    Map::new(
        |k: i32| has_key(p, k),
        |k: i32| p[choose|i: int| 0 <= i < p.len() && #[trigger] p[i].0 == k].1,
    )
}

pub open spec fn entry_view(e: PoseEntry) -> PoseEntryView {
    (e.0, e.1@)
}

impl View for AsanaData {
    type V = AsanaDataView;

    open spec fn view(&self) -> AsanaDataView {
        AsanaDataView {
            asanas: self.asanas@.map_values(|a: Asana| a@),
            poses: self.poses@.map_values(|e: PoseEntry| entry_view(e)),
        }
    }
}

/// Joints were already recorded for this pose id.
#[derive(Debug, PartialEq, Eq, Structural)]
pub struct DuplicatePose {
    pub pose_id: i32,
}

/// In a list with unique keys, the entry at `i` is what the map gives for its key.
pub proof fn lemma_pose_map_at(p: Seq<PoseEntryView>, i: int)
    requires
        keys_unique(p),
        0 <= i < p.len(),
    ensures
        pose_map(p).contains_key(p[i].0),
        pose_map(p)[p[i].0] == p[i].1,
{
    assert(has_key(p, p[i].0));
    let j = choose|j: int| 0 <= j < p.len() && #[trigger] p[j].0 == p[i].0;
    if j != i {
        if i < j {
            assert(p[i].0 != p[j].0);
        } else {
            assert(p[j].0 != p[i].0);
        }
    }
}

/// Appending an entry for a new key adds exactly that key to the map.
pub proof fn lemma_pose_map_push(p: Seq<PoseEntryView>, e: PoseEntryView)
    requires
        keys_unique(p),
        !has_key(p, e.0),
    ensures
        keys_unique(p.push(e)),
        pose_map(p.push(e)) == pose_map(p).insert(e.0, e.1),
{
    let q = p.push(e);
    assert forall|i: int, j: int| 0 <= i < j < q.len() implies #[trigger] q[i].0
        != #[trigger] q[j].0 by {
        if j == p.len() {
            assert(p[i].0 == q[i].0);
        } else {
            assert(p[i].0 != p[j].0);
        }
    }
    assert forall|k: i32| has_key(q, k) <==> (has_key(p, k) || k == e.0) by {
        if has_key(p, k) {
            let i = choose|i: int| 0 <= i < p.len() && #[trigger] p[i].0 == k;
            assert(q[i].0 == k);
        }
        assert(q[p.len() as int] == e);
        if has_key(q, k) {
            let i = choose|i: int| 0 <= i < q.len() && #[trigger] q[i].0 == k;
            if i < p.len() {
                assert(p[i].0 == k);
            }
        }
    }
    assert forall|k: i32| #[trigger] pose_map(q).contains_key(k) implies pose_map(q)[k]
        == pose_map(p).insert(e.0, e.1)[k] by {
        let i = choose|i: int| 0 <= i < q.len() && #[trigger] q[i].0 == k;
        lemma_pose_map_at(q, i);
        if i < p.len() {
            assert(p[i] == q[i]);
            lemma_pose_map_at(p, i);
        }
    }
    assert(pose_map(q) =~= pose_map(p).insert(e.0, e.1));
}

/// Joints recorded under a pose id that had none are found again under it,
/// unchanged, and every other pose id keeps what it had.
pub proof fn lemma_insert_fresh_then_lookup(p: Seq<PoseEntryView>, pose_id: i32, joints: Seq<Joint>)
    requires
        keys_unique(p),
        !pose_map(p).contains_key(pose_id),
    ensures
        keys_unique(p.push((pose_id, joints))),
        pose_map(p.push((pose_id, joints))).contains_key(pose_id),
        pose_map(p.push((pose_id, joints)))[pose_id] == joints,
        forall|k: i32|
            k != pose_id ==> (#[trigger] pose_map(p.push((pose_id, joints))).contains_key(k)
                <==> pose_map(p).contains_key(k)),
        forall|k: i32|
            k != pose_id && pose_map(p).contains_key(k) ==> #[trigger] pose_map(
                p.push((pose_id, joints)),
            )[k] == pose_map(p)[k],
{
    lemma_pose_map_push(p, (pose_id, joints));
}

impl AsanaData {
    /// Joint lists have unique pose ids.
    pub open spec fn wf(&self) -> bool {
        keys_unique(self@.poses)
    }

    /// A database of these poses with no joints recorded yet.
    pub fn new(asanas: Vec<Asana>) -> (r: AsanaData)
        ensures
            r.wf(),
            r@.asanas == asanas@.map_values(|a: Asana| a@),
            r@.poses == Seq::<PoseEntryView>::empty(),
    {
        let r = AsanaData { asanas, poses: Vec::new() };
        assert(r@.poses =~= Seq::<PoseEntryView>::empty());
        r
    }

    /// Whether no two joint lists share a pose id.
    pub fn has_unique_pose_ids(&self) -> (r: bool)
        ensures
            r == self.wf(),
    {
        let ghost v = self@.poses;
        let n = self.poses.len();
        let mut i: usize = 0;
        while i < n
            invariant
                n == self.poses@.len() == v.len(),
                v == self@.poses,
                i <= n,
                forall|a: int, c: int| 0 <= a < i && a < c < n ==> #[trigger] v[a].0 != #[trigger] v[c].0,
            decreases n - i,
        {
            let mut j: usize = i + 1;
            while j < n
                invariant
                    n == self.poses@.len() == v.len(),
                    v == self@.poses,
                    i < n,
                    i + 1 <= j <= n,
                    forall|a: int, c: int| 0 <= a < i && a < c < n ==> #[trigger] v[a].0 != #[trigger] v[c].0,
                    forall|c: int| i < c < j ==> v[i as int].0 != #[trigger] v[c].0,
                decreases n - j,
            {
                if self.poses[i].0 == self.poses[j].0 {
                    assert(v[i as int].0 == v[j as int].0);
                    return false;
                }
                j = j + 1;
            }
            i = i + 1;
        }
        true
    }

    /// Records the joints of `pose_id`. Fails, and changes nothing, when joints
    /// were already recorded for it: a list is never overwritten.
    pub fn insert_joints(&mut self, pose_id: i32, joints: Vec<Joint>) -> (r: Result<
        (),
        DuplicatePose,
    >)
        requires
            old(self).wf(),
        ensures
            final(self).wf(),
            final(self)@.asanas == old(self)@.asanas,
            r is Err <==> pose_map(old(self)@.poses).contains_key(pose_id),
            r is Err ==> r == Err::<(), DuplicatePose>(DuplicatePose { pose_id })
                && final(self)@ == old(self)@,
            r is Ok ==> final(self)@.poses == old(self)@.poses.push((pose_id, joints@)),
            r is Ok ==> pose_map(final(self)@.poses) == pose_map(old(self)@.poses).insert(
                pose_id,
                joints@,
            ),
    {
        let mut i: usize = 0;
        while i < self.poses.len()
            invariant
                i <= self.poses@.len(),
                self.wf(),
                self@ == old(self)@,
                forall|j: int| 0 <= j < i ==> #[trigger] self@.poses[j].0 != pose_id,
            decreases self.poses@.len() - i,
        {
            if self.poses[i].0 == pose_id {
                assert(self@.poses[i as int].0 == pose_id);
                assert(has_key(self@.poses, pose_id));
                return Err(DuplicatePose { pose_id });
            }
            i = i + 1;
        }
        let ghost before = self@;
        assert(!has_key(before.poses, pose_id));
        self.poses.push((pose_id, joints));
        proof {
            assert(self@.poses =~= before.poses.push((pose_id, joints@)));
            lemma_pose_map_push(before.poses, (pose_id, joints@));
        }
        Ok(())
    }

    /// The joints recorded for `pose_id`, if any.
    pub fn joints_of(&self, pose_id: i32) -> (r: Option<&Vec<Joint>>)
        requires
            self.wf(),
        ensures
            r is Some <==> pose_map(self@.poses).contains_key(pose_id),
            r is Some ==> r->0@ == pose_map(self@.poses)[pose_id],
    {
        let mut i: usize = 0;
        while i < self.poses.len()
            invariant
                i <= self.poses@.len(),
                self.wf(),
                forall|j: int| 0 <= j < i ==> #[trigger] self@.poses[j].0 != pose_id,
            decreases self.poses@.len() - i,
        {
            if self.poses[i].0 == pose_id {
                proof {
                    lemma_pose_map_at(self@.poses, i as int);
                }
                return Some(&self.poses[i].1);
            }
            i = i + 1;
        }
        None
    }

    /// The index of the first pose whose Sanskrit name is exactly `name`.
    pub fn find_pose_by_name(&self, name: &String) -> (r: Option<usize>)
        ensures
            r is Some ==> r->0 < self@.asanas.len() && self@.asanas[r->0 as int].sanskrit
                == name@,
            forall|j: int|
                0 <= j < self@.asanas.len() && (r is None || j < r->0) ==> #[trigger] self@.asanas[j].sanskrit
                    != name@,
    {
        let mut i: usize = 0;
        while i < self.asanas.len()
            invariant
                i <= self@.asanas.len(),
                forall|j: int| 0 <= j < i ==> #[trigger] self@.asanas[j].sanskrit != name@,
            decreases self@.asanas.len() - i,
        {
            if self.asanas[i].sanskrit == *name {
                return Some(i);
            }
            i = i + 1;
        }
        None
    }

    /// The joints of the first pose whose Sanskrit name is exactly `name`;
    /// `None` when no pose has that name or no joints were recorded for it.
    pub fn load_pose(&self, name: &String) -> (r: Option<&Vec<Joint>>)
        requires
            self.wf(),
        ensures
            r is Some <==> exists|i: int|
                is_first_named(self@.asanas, name@, i) && pose_map(self@.poses).contains_key(
                    #[trigger] self@.asanas[i].pose_id,
                ),
            forall|i: int|
                is_first_named(self@.asanas, name@, i) && r is Some ==> r->0@ == pose_map(
                    self@.poses,
                )[#[trigger] self@.asanas[i].pose_id],
    {
        match self.find_pose_by_name(name) {
            None => {
                assert forall|i: int| is_first_named(self@.asanas, name@, i) implies !pose_map(
                    self@.poses,
                ).contains_key(#[trigger] self@.asanas[i].pose_id) by {
                    assert(self@.asanas[i].sanskrit != name@);
                }
                None
            },
            Some(i) => {
                assert forall|k: int| #[trigger] is_first_named(self@.asanas, name@, k) implies k
                    == i by {
                    if k < i {
                        assert(self@.asanas[k].sanskrit != name@);
                    } else if i < k {
                        assert(self@.asanas[i as int].sanskrit != name@);
                    }
                }
                assert(is_first_named(self@.asanas, name@, i as int));
                let pid = self.asanas[i].pose_id;
                assert(pid == self@.asanas[i as int].pose_id);
                let r = self.joints_of(pid);
                proof {
                    if r is None {
                        assert forall|k: int| is_first_named(self@.asanas, name@, k) implies !pose_map(
                        self@.poses,
                    ).contains_key(#[trigger] self@.asanas[k].pose_id) by {
                            assert(k == i);
                        }
                    }
                }
                r
            },
        }
    }
}

/// `i` is the first position of `s` whose Sanskrit name is `name`.
pub open spec fn is_first_named(s: Seq<AsanaView>, name: Seq<char>, i: int) -> bool {
    &&& 0 <= i < s.len()
    &&& s[i].sanskrit == name
    &&& forall|j: int| 0 <= j < i ==> #[trigger] s[j].sanskrit != name
}

} // verus!
