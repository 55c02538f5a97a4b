//! Fuzzy search over pose names, ranked best match first.

use vstd::prelude::*;
use vstd::arithmetic::div_mod::lemma_fundamental_div_mod_converse;
use fuzzy_matcher::skim::SkimMatcherV2;
use fuzzy_matcher::FuzzyMatcher;
use crate::model::{is_first_named, pose_map, AsanaData, AsanaView, Joint};

verus! {

/// Which name of each pose a search looks at.
#[derive(Clone, Copy, Debug, PartialEq, Eq, Structural)]
pub enum NameField {
    Sanskrit,
    English,
}

pub open spec fn name_of(a: AsanaView, field: NameField) -> Seq<char> {
    match field {
        NameField::Sanskrit => a.sanskrit,
        NameField::English => a.english,
    }
}

/// What `str::to_lowercase` gives for these characters.
pub uninterp spec fn lower_of(s: Seq<char>) -> Seq<char>;

/// The score that the skim matcher, in its default settings, gives `choice`
/// for `pattern`; `None` when it does not match.
pub uninterp spec fn skim_score(choice: Seq<char>, pattern: Seq<char>) -> Option<i64>;

/// The code of `c` with ASCII capitals taken to lower case.
pub open spec fn ascii_lower(c: char) -> u32 {
    let x = c as u32;
    if 65 <= x && x <= 90 {
        (x + 32) as u32
    } else {
        x
    }
}

/// Two characters are equal, or, when case is ignored, equal but for ASCII case.
pub open spec fn chars_match(c: char, p: char, case_sensitive: bool) -> bool {
    if case_sensitive {
        c == p
    } else {
        ascii_lower(c) == ascii_lower(p)
    }
}

/// `s` holds an ASCII capital letter.
pub open spec fn has_ascii_upper(s: Seq<char>) -> bool {
    exists|i: int| 0 <= i < s.len() && 65 <= #[trigger] (s[i] as u32) <= 90
}

/// Every character of `pattern` appears in `choice`, in order, not
/// necessarily side by side.
pub open spec fn fuzzy_subsequence(choice: Seq<char>, pattern: Seq<char>, case_sensitive: bool) -> bool
    decreases choice.len(),
{
    if pattern.len() == 0 {
        true
    } else if choice.len() == 0 {
        false
    } else if chars_match(choice[0], pattern[0], case_sensitive) {
        fuzzy_subsequence(choice.drop_first(), pattern.drop_first(), case_sensitive)
    } else {
        fuzzy_subsequence(choice.drop_first(), pattern, case_sensitive)
    }
}

/// The pattern matches the name: case is ignored unless the pattern holds an
/// ASCII capital.
pub open spec fn name_matches(name: Seq<char>, pattern: Seq<char>) -> bool {
    fuzzy_subsequence(name, pattern, has_ascii_upper(pattern))
}

/// Relies on `str::to_lowercase`: the result depends on the characters alone,
/// and the empty string stays empty.
#[verifier::external_body]
fn lowercase(s: &str) -> (r: String)
    ensures
        r@ == lower_of(s@),
        s@.len() == 0 ==> r@.len() == 0,
{
    s.to_lowercase()
}

/// Relies on `SkimMatcherV2::default().fuzzy_indices` of fuzzy_matcher: it
/// gives a score exactly when its greedy scan finds every character of the
/// pattern in the choice in order (ignoring ASCII case unless the pattern
/// holds an ASCII capital), and the score 0 for an empty pattern.
#[verifier::external_body]
fn skim_match(choice: &str, pattern: &str) -> (r: Option<i64>)
    ensures
        r == skim_score(choice@, pattern@),
        r is Some <==> name_matches(choice@, pattern@),
        pattern@.len() == 0 ==> r == Some(0i64),
{
    SkimMatcherV2::default().fuzzy_indices(choice, pattern).map(|m| m.0)
}

/// In a ranking by `scores`, index `a` comes before index `c`: a higher score
/// first, and on equal scores the lower index.
pub open spec fn ranks_before(scores: Seq<Option<i64>>, a: int, c: int) -> bool {
    scores[a]->0 > scores[c]->0 || (scores[a]->0 == scores[c]->0 && a < c)
}

/// `r` lists each index that has a score exactly once, best first, and ties in
/// the order of their indices.
pub open spec fn is_ranking(scores: Seq<Option<i64>>, r: Seq<usize>) -> bool {
    &&& forall|k: int| 0 <= k < r.len() ==> #[trigger] r[k] < scores.len() && scores[r[k] as int] is Some
    &&& forall|i: int| 0 <= i < scores.len() && #[trigger] scores[i] is Some ==> r.contains(i as usize)
    &&& forall|j: int, k: int|
        0 <= j < k < r.len() ==> ranks_before(scores, #[trigger] r[j] as int, #[trigger] r[k] as int)
}

/// The indices that have a score, ordered best score first; equal scores keep
/// the order of their indices.
pub fn rank_matches(scores: &Vec<Option<i64>>) -> (r: Vec<usize>)
    ensures
        is_ranking(scores@, r@),
{
    let n = scores.len();
    let mut r: Vec<usize> = Vec::new();
    let mut i: usize = 0;
    while i < n
        invariant
            n == scores@.len(),
            i <= n,
            forall|k: int| 0 <= k < r@.len() ==> #[trigger] r@[k] < i && scores@[r@[k] as int] is Some,
            forall|m: int| 0 <= m < i && #[trigger] scores@[m] is Some ==> r@.contains(m as usize),
            forall|j: int, k: int|
                0 <= j < k < r@.len() ==> ranks_before(scores@, #[trigger] r@[j] as int, #[trigger] r@[k] as int),
        decreases n - i,
    {
        if let Some(s) = scores[i] {
            let mut pos: usize = 0;
            while pos < r.len() && scores[r[pos]].unwrap() >= s
                invariant
                    n == scores@.len(),
                    i < n,
                    scores@[i as int] == Some(s),
                    pos <= r@.len(),
                    forall|k: int| 0 <= k < r@.len() ==> #[trigger] r@[k] < i && scores@[r@[k] as int] is Some,
                    forall|k: int| 0 <= k < pos ==> scores@[#[trigger] r@[k] as int]->0 >= s,
                decreases r@.len() - pos,
            {
                pos = pos + 1;
            }
            let ghost old_r = r@;
            r.insert(pos, i);
            proof {
                assert(r@ == old_r.insert(pos as int, i));
                assert forall|k: int| 0 <= k < r@.len() implies #[trigger] r@[k] < i + 1
                    && scores@[r@[k] as int] is Some by {
                    if k > pos {
                        assert(r@[k] == old_r[k - 1]);
                    }
                }
                assert forall|m: int| 0 <= m < i + 1 && #[trigger] scores@[m] is Some implies r@.contains(
                    m as usize,
                ) by {
                    if m == i {
                        assert(r@[pos as int] == i);
                    } else {
                        assert(old_r.contains(m as usize));
                        let k = choose|k: int| 0 <= k < old_r.len() && old_r[k] == m as usize;
                        if k < pos {
                            assert(r@[k] == m as usize);
                        } else {
                            assert(r@[k + 1] == m as usize);
                        }
                    }
                }
                assert forall|j: int, k: int| 0 <= j < k < r@.len() implies ranks_before(
                    scores@,
                    #[trigger] r@[j] as int,
                    #[trigger] r@[k] as int,
                ) by {
                    if pos < old_r.len() {
                        assert(scores@[old_r[pos as int] as int]->0 < s);
                    }
                    if j < pos && k < pos {
                        assert(ranks_before(scores@, old_r[j] as int, old_r[k] as int));
                    } else if j < pos && k == pos {
                        assert(scores@[old_r[j] as int]->0 >= s);
                    } else if j < pos {
                        assert(ranks_before(scores@, old_r[j] as int, old_r[k - 1] as int));
                    } else if j == pos {
                        if k - 1 > pos {
                            assert(ranks_before(scores@, old_r[pos as int] as int, old_r[k - 1] as int));
                        }
                        assert(scores@[old_r[k - 1] as int]->0 < s);
                    } else {
                        assert(ranks_before(scores@, old_r[j - 1] as int, old_r[k - 1] as int));
                    }
                }
            }
        }
        i = i + 1;
    }
    r
}

/// The score of each pose's name in `field` for `pattern`, in pose order.
pub open spec fn match_scores(asanas: Seq<AsanaView>, field: NameField, pattern: Seq<char>) -> Seq<
    Option<i64>,
> {
    Seq::new(asanas.len(), |i: int| skim_score(name_of(asanas[i], field), pattern))
}

/// `r` is what a search for `pattern` in `field` returns: the poses whose name
/// matches, best score first, ties in pose order.
pub open spec fn search_result(
    asanas: Seq<AsanaView>,
    field: NameField,
    pattern: Seq<char>,
    r: Seq<usize>,
) -> bool {
    &&& is_ranking(match_scores(asanas, field, pattern), r)
    &&& forall|i: int|
        0 <= i < asanas.len() ==> (#[trigger] match_scores(asanas, field, pattern)[i] is Some
            <==> name_matches(name_of(asanas[i], field), pattern))
}

/// The indices `0..n` in order.
pub open spec fn all_indices(n: nat) -> Seq<usize> {
    Seq::new(n, |i: int| i as usize)
}

impl AsanaData {
    /// The poses whose name in `field` matches the lower-cased `query`, best
    /// match first, poses with equal scores in their order in the database.
    /// An empty query lists every pose in order.
    pub fn search(&self, query: &str, field: NameField) -> (r: Vec<usize>)
        ensures
            search_result(self@.asanas, field, lower_of(query@), r@),
            query@.len() == 0 ==> r@ == all_indices(self@.asanas.len()),
    {
        let pattern = lowercase(query);
        let ghost scores_spec = match_scores(self@.asanas, field, pattern@);
        let n = self.asanas.len();
        let mut scores: Vec<Option<i64>> = Vec::new();
        let mut i: usize = 0;
        while i < n
            invariant
                n == self@.asanas.len(),
                i <= n,
                scores_spec == match_scores(self@.asanas, field, pattern@),
                scores@ == scores_spec.take(i as int),
                forall|k: int|
                    0 <= k < i ==> (#[trigger] scores_spec[k] is Some <==> name_matches(
                        name_of(self@.asanas[k], field),
                        pattern@,
                    )),
                pattern@.len() == 0 ==> forall|k: int| 0 <= k < i ==> #[trigger] scores_spec[k] == Some(0i64),
            decreases n - i,
        {
            let name: &String = match field {
                NameField::Sanskrit => &self.asanas[i].sanskrit,
                NameField::English => &self.asanas[i].english,
            };
            let sc = skim_match(name.as_str(), pattern.as_str());
            scores.push(sc);
            assert(scores@ =~= scores_spec.take(i + 1));
            i = i + 1;
        }
        assert(scores@ =~= scores_spec);
        let r = rank_matches(&scores);
        proof {
            if query@.len() == 0 {
                let ids = all_indices(n as nat);
                assert forall|i: int| 0 <= i < n && #[trigger] scores_spec[i] is Some implies ids.contains(
                    i as usize,
                ) by {
                    assert(ids[i] == i as usize);
                }
                lemma_ranking_unique(scores_spec, r@, ids);
            }
        }
        r
    }
}

/// Two rankings by the same scores are the same list.
pub proof fn lemma_ranking_unique(scores: Seq<Option<i64>>, r1: Seq<usize>, r2: Seq<usize>)
    requires
        is_ranking(scores, r1),
        is_ranking(scores, r2),
    ensures
        r1 == r2,
{
    lemma_sorted_same_members(scores, r1, r2);
}

proof fn lemma_sorted_same_members(scores: Seq<Option<i64>>, r1: Seq<usize>, r2: Seq<usize>)
    requires
        forall|j: int, k: int|
            0 <= j < k < r1.len() ==> ranks_before(scores, #[trigger] r1[j] as int, #[trigger] r1[k] as int),
        forall|j: int, k: int|
            0 <= j < k < r2.len() ==> ranks_before(scores, #[trigger] r2[j] as int, #[trigger] r2[k] as int),
        forall|x: usize| r1.contains(x) <==> r2.contains(x),
    ensures
        r1 == r2,
    decreases r1.len(),
{
    if r1.len() == 0 {
        if r2.len() > 0 {
            assert(r2.contains(r2[0]));
        }
        assert(r1 =~= r2);
    } else {
        assert(r1.contains(r1[0]));
        assert(r2.len() > 0);
        assert(r2.contains(r2[0]));
        let a = r1[0];
        let c = r2[0];
        let j = choose|j: int| 0 <= j < r1.len() && r1[j] == c;
        let i = choose|i: int| 0 <= i < r2.len() && r2[i] == a;
        if j > 0 && i > 0 {
            assert(ranks_before(scores, a as int, c as int));
            assert(ranks_before(scores, c as int, a as int));
        }
        assert(a == c);
        let t1 = r1.drop_first();
        let t2 = r2.drop_first();
        assert forall|x: usize| t1.contains(x) <==> t2.contains(x) by {
            if t1.contains(x) {
                let k = choose|k: int| 0 <= k < t1.len() && t1[k] == x;
                assert(r1[k + 1] == x);
                assert(ranks_before(scores, r1[0] as int, r1[k + 1] as int));
                assert(r1.contains(x));
                let m = choose|m: int| 0 <= m < r2.len() && r2[m] == x;
                assert(m != 0);
                assert(t2[m - 1] == x);
            }
            if t2.contains(x) {
                let k = choose|k: int| 0 <= k < t2.len() && t2[k] == x;
                assert(r2[k + 1] == x);
                assert(ranks_before(scores, r2[0] as int, r2[k + 1] as int));
                assert(r2.contains(x));
                let m = choose|m: int| 0 <= m < r1.len() && r1[m] == x;
                assert(m != 0);
                assert(t1[m - 1] == x);
            }
        }
        assert forall|p: int, q: int| 0 <= p < q < t1.len() implies ranks_before(
            scores,
            #[trigger] t1[p] as int,
            #[trigger] t1[q] as int,
        ) by {
            assert(ranks_before(scores, r1[p + 1] as int, r1[q + 1] as int));
        }
        assert forall|p: int, q: int| 0 <= p < q < t2.len() implies ranks_before(
            scores,
            #[trigger] t2[p] as int,
            #[trigger] t2[q] as int,
        ) by {
            assert(ranks_before(scores, r2[p + 1] as int, r2[q + 1] as int));
        }
        lemma_sorted_same_members(scores, t1, t2);
        assert(r1 =~= seq![a] + t1);
        assert(r2 =~= seq![c] + t2);
    }
}

/// A query that matches no pose's name in the selected field finds nothing.
pub proof fn lemma_search_excludes(
    asanas: Seq<AsanaView>,
    field: NameField,
    pattern: Seq<char>,
    r: Seq<usize>,
)
    requires
        search_result(asanas, field, pattern, r),
        forall|i: int| 0 <= i < asanas.len() ==> !name_matches(#[trigger] name_of(asanas[i], field), pattern),
    ensures
        r.len() == 0,
{
    if r.len() > 0 {
        let i = r[0] as int;
        assert(match_scores(asanas, field, pattern)[i] is Some);
        assert(!name_matches(name_of(asanas[i], field), pattern));
    }
}

/// A search reads only the selected field: two databases whose names in that
/// field agree, pose by pose, give the same result for the same query.
pub proof fn lemma_search_reads_selected_field(
    a1: Seq<AsanaView>,
    a2: Seq<AsanaView>,
    field: NameField,
    pattern: Seq<char>,
    r1: Seq<usize>,
    r2: Seq<usize>,
)
    requires
        a1.len() == a2.len(),
        forall|i: int| 0 <= i < a1.len() ==> #[trigger] name_of(a1[i], field) == name_of(a2[i], field),
        search_result(a1, field, pattern, r1),
        search_result(a2, field, pattern, r2),
    ensures
        r1 == r2,
{
    let s1 = match_scores(a1, field, pattern);
    let s2 = match_scores(a2, field, pattern);
    assert forall|i: int| 0 <= i < s1.len() implies s1[i] == s2[i] by {
        assert(name_of(a1[i], field) == name_of(a2[i], field));
    }
    assert(s1 =~= s2);
    lemma_ranking_unique(s1, r1, r2);
}

/// The state of a pose browser: the database, the search text and field, the
/// poses that the last search listed, and the pose on show.
pub struct YogaAssets {
    pub current_idx: usize,
    pub asanas: AsanaData,
    pub asana_name_entry: String,
    pub check_sanskrit: bool,
    pub possible_asanas: Vec<usize>,
}

impl YogaAssets {
    /// The field that searches look at.
    pub open spec fn field(&self) -> NameField {
        if self.check_sanskrit {
            NameField::Sanskrit
        } else {
            NameField::English
        }
    }

    /// A browser on the first pose, with an empty search listing every pose
    /// and searches in the English names.
    pub fn new(asanas: AsanaData) -> (r: YogaAssets)
        ensures
            r.asanas@ == asanas@,
            r.current_idx == 0,
            r.asana_name_entry@.len() == 0,
            !r.check_sanskrit,
            r.possible_asanas@ == all_indices(asanas@.asanas.len()),
    {
        let n = asanas.asanas.len();
        let mut possible: Vec<usize> = Vec::new();
        let mut i: usize = 0;
        while i < n
            invariant
                i <= n,
                possible@ == all_indices(i as nat),
            decreases n - i,
        {
            possible.push(i);
            assert(possible@ =~= all_indices((i + 1) as nat));
            i = i + 1;
        }
        YogaAssets {
            current_idx: 0,
            asanas,
            asana_name_entry: String::new(),
            check_sanskrit: false,
            possible_asanas: possible,
        }
    }

    /// Runs the search again from scratch with the current text and field, and
    /// replaces the listed poses with its result.
    pub fn search(&mut self)
        ensures
            final(self).asanas@ == old(self).asanas@,
            final(self).current_idx == old(self).current_idx,
            final(self).asana_name_entry@ == old(self).asana_name_entry@,
            final(self).check_sanskrit == old(self).check_sanskrit,
            search_result(
                old(self).asanas@.asanas,
                old(self).field(),
                lower_of(old(self).asana_name_entry@),
                final(self).possible_asanas@,
            ),
    {
        let field = if self.check_sanskrit {
            NameField::Sanskrit
        } else {
            NameField::English
        };
        self.possible_asanas = self.asanas.search(self.asana_name_entry.as_str(), field);
    }

    /// Moves to the next pose, from the last back to the first.
    pub fn next_pose(&mut self)
        requires
            old(self).current_idx < old(self).asanas@.asanas.len(),
        ensures
            final(self).current_idx == (old(self).current_idx + 1) % (old(self).asanas@.asanas.len() as int),
            final(self).asanas@ == old(self).asanas@,
            final(self).possible_asanas@ == old(self).possible_asanas@,
    {
        let n = self.asanas.asanas.len();
        self.current_idx = (self.current_idx + 1) % n;
    }

    /// Moves to the previous pose, from the first back to the last.
    pub fn previous_pose(&mut self)
        requires
            old(self).current_idx < old(self).asanas@.asanas.len(),
        ensures
            final(self).current_idx == (old(self).current_idx + old(self).asanas@.asanas.len() - 1) % (
            old(self).asanas@.asanas.len() as int),
            final(self).asanas@ == old(self).asanas@,
            final(self).possible_asanas@ == old(self).possible_asanas@,
    {
        let n = self.asanas.asanas.len();
        let idx = self.current_idx;
        proof {
            if idx == 0 {
                lemma_fundamental_div_mod_converse(idx + n - 1, n as int, 0, n - 1);
            } else {
                lemma_fundamental_div_mod_converse(idx + n - 1, n as int, 1, idx - 1);
            }
        }
        self.current_idx = if idx == 0 {
            n - 1
        } else {
            idx - 1
        };
    }

    /// The joints of the pose on show, found by its Sanskrit name as
    /// [`AsanaData::load_pose`] finds them.
    pub fn current_pose(&self) -> (r: Option<&Vec<Joint>>)
        requires
            self.asanas.wf(),
            self.current_idx < self.asanas@.asanas.len(),
        ensures
            r is Some <==> exists|i: int|
                is_first_named(self.asanas@.asanas, self.asanas@.asanas[self.current_idx as int].sanskrit, i)
                    && pose_map(self.asanas@.poses).contains_key(#[trigger] self.asanas@.asanas[i].pose_id),
            forall|i: int|
                is_first_named(self.asanas@.asanas, self.asanas@.asanas[self.current_idx as int].sanskrit, i)
                    && r is Some ==> r->0@ == pose_map(self.asanas@.poses)[#[trigger] self.asanas@.asanas[i].pose_id],
    {
        self.asanas.load_pose(&self.asanas.asanas[self.current_idx].sanskrit)
    }
}

} // verus!
