//! Which model output carries the landmarks, the presence score and the handedness.
//!
//! Outputs are looked at in model order. The one with exactly `LANDMARK_VALUES`
//! values is the landmark output; among the others, one whose name contains
//! "score" is the score, and otherwise one whose name contains "left", "right"
//! or "hand" is the handedness. When several qualify, the last one wins.

use crate::landmark::LANDMARK_VALUES;
use crate::text::{chars_of, contains_chars, has_substring};
use vstd::prelude::*;

verus! {

/// Name and number of values of one model output.
pub struct OutputInfo {
    pub name: String,
    pub len: usize,
}

/// Positions, among the model outputs, of the ones the detector reads.
#[derive(Clone, Copy, Debug, PartialEq, Eq)]
pub struct OutputRoles {
    /// The output holding x, y, z of every landmark.
    pub landmarks: usize,
    /// The hand-presence score, if the model has one.
    pub score: Option<usize>,
    /// The handedness, if the model has one.
    pub handedness: Option<usize>,
}

/// Why the model outputs cannot be decoded.
#[derive(Clone, Copy, Debug, PartialEq, Eq)]
pub enum DetectError {
    /// No output has exactly one x, y, z triple per landmark.
    MissingLandmarks,
}

pub open spec fn score_tag() -> Seq<char> {
    seq!['s', 'c', 'o', 'r', 'e']
}

pub open spec fn left_tag() -> Seq<char> {
    seq!['l', 'e', 'f', 't']
}

pub open spec fn right_tag() -> Seq<char> {
    seq!['r', 'i', 'g', 'h', 't']
}

pub open spec fn hand_tag() -> Seq<char> {
    seq!['h', 'a', 'n', 'd']
}

/// The output holds one x, y, z triple per landmark.
pub open spec fn is_landmark_output(o: OutputInfo) -> bool {
    o.len == LANDMARK_VALUES
}

/// The output is read as the score.
pub open spec fn is_score_output(o: OutputInfo) -> bool {
    !is_landmark_output(o) && has_substring(o.name@, score_tag())
}

/// The output is read as the handedness.
pub open spec fn is_handedness_output(o: OutputInfo) -> bool {
    &&& !is_landmark_output(o)
    &&& !has_substring(o.name@, score_tag())
    &&& (has_substring(o.name@, left_tag()) || has_substring(o.name@, right_tag())
        || has_substring(o.name@, hand_tag()))
}

/// `is_landmark_output` as a value.
pub open spec fn landmark_role() -> spec_fn(OutputInfo) -> bool {
    |o: OutputInfo| is_landmark_output(o)
}

/// `is_score_output` as a value.
pub open spec fn score_role() -> spec_fn(OutputInfo) -> bool {
    |o: OutputInfo| is_score_output(o)
}

/// `is_handedness_output` as a value.
pub open spec fn handedness_role() -> spec_fn(OutputInfo) -> bool {
    |o: OutputInfo| is_handedness_output(o)
}

/// The position of the last output that satisfies `p`, if any does.
pub open spec fn last_where(outs: Seq<OutputInfo>, p: spec_fn(OutputInfo) -> bool) -> Option<
    int,
>
    decreases outs.len(),
{
    if outs.len() == 0 {
        None
    } else if p(outs.last()) {
        Some(outs.len() - 1)
    } else {
        last_where(outs.drop_last(), p)
    }
}

/// An optional position, as a mathematical integer.
pub open spec fn as_position(o: Option<usize>) -> Option<int> {
    match o {
        Some(i) => Some(i as int),
        None => None,
    }
}

proof fn lemma_last_where_step(outs: Seq<OutputInfo>, p: spec_fn(OutputInfo) -> bool, i: int)
    requires
        0 <= i < outs.len(),
    ensures
        last_where(outs.take(i + 1), p) == if p(outs[i]) {
            Some(i)
        } else {
            last_where(outs.take(i), p)
        },
{
    assert(outs.take(i + 1).drop_last() =~= outs.take(i));
}

proof fn lemma_last_where_found(outs: Seq<OutputInfo>, p: spec_fn(OutputInfo) -> bool)
    ensures
        last_where(outs, p) matches Some(i) ==> 0 <= i < outs.len() && p(outs[i]),
    decreases outs.len(),
{
    if outs.len() > 0 && !p(outs.last()) {
        lemma_last_where_found(outs.drop_last(), p);
    }
}

/// The roles that `classify_outputs` reports are three different outputs, each of
/// the kind its role asks for: the landmark output holds exactly `LANDMARK_VALUES`
/// values, the score output's name contains "score", and the handedness output is
/// neither of the two.
pub proof fn lemma_roles_sound(outs: Seq<OutputInfo>, roles: OutputRoles)
    requires
        last_where(outs, landmark_role()) == Some(roles.landmarks as int),
        last_where(outs, score_role()) == as_position(roles.score),
        last_where(outs, handedness_role()) == as_position(roles.handedness),
    ensures
        roles.landmarks < outs.len(),
        outs[roles.landmarks as int].len == LANDMARK_VALUES,
        roles.score matches Some(s) ==> {
            &&& s < outs.len()
            &&& s != roles.landmarks
            &&& has_substring(outs[s as int].name@, score_tag())
        },
        roles.handedness matches Some(h) ==> {
            &&& h < outs.len()
            &&& h != roles.landmarks
            &&& roles.score != Some(h)
            &&& is_handedness_output(outs[h as int])
        },
{
    lemma_last_where_found(outs, landmark_role());
    lemma_last_where_found(outs, score_role());
    lemma_last_where_found(outs, handedness_role());
}

/// Decides which outputs hold the landmarks, the score and the handedness.
pub fn classify_outputs(outs: &Vec<OutputInfo>) -> (r: Result<OutputRoles, DetectError>)
    ensures
        r is Ok <==> last_where(outs@, landmark_role()) is Some,
        r matches Ok(roles) ==> {
            &&& last_where(outs@, landmark_role()) == Some(
                roles.landmarks as int,
            )
            &&& last_where(outs@, score_role()) == as_position(roles.score)
            &&& last_where(outs@, handedness_role()) == as_position(
                roles.handedness,
            )
        },
        r matches Err(e) ==> e == DetectError::MissingLandmarks,
        r is Err ==> forall|j: int| 0 <= j < outs@.len() ==> !holds_63_values(#[trigger] outs@[j]),
        r matches Ok(roles) ==> {
            &&& roles.landmarks < outs@.len()
            &&& holds_63_values(outs@[roles.landmarks as int])
            &&& forall|j: int|
                roles.landmarks < j < outs@.len() ==> !holds_63_values(#[trigger] outs@[j])
            &&& forall|i: int|
                0 <= i < outs@.len() && named_score(#[trigger] outs@[i]) ==> (roles.score matches Some(
                    s,
                ) && i <= s)
            &&& roles.score matches Some(s) ==> s < outs@.len() && named_score(outs@[s as int])
                && forall|j: int| s < j < outs@.len() ==> !named_score(#[trigger] outs@[j])
            &&& forall|i: int|
                0 <= i < outs@.len() && named_hand(#[trigger] outs@[i]) ==> (
                roles.handedness matches Some(h) && i <= h)
            &&& roles.handedness matches Some(h) ==> h < outs@.len() && named_hand(outs@[h as int])
                && forall|j: int| h < j < outs@.len() ==> !named_hand(#[trigger] outs@[j])
        },
{
    let score_pat = ['s', 'c', 'o', 'r', 'e'];
    let left_pat = ['l', 'e', 'f', 't'];
    let right_pat = ['r', 'i', 'g', 'h', 't'];
    let hand_pat = ['h', 'a', 'n', 'd'];
    assert(score_pat@ =~= score_tag());
    assert(left_pat@ =~= left_tag());
    assert(right_pat@ =~= right_tag());
    assert(hand_pat@ =~= hand_tag());
    let mut landmarks: Option<usize> = None;
    let mut score: Option<usize> = None;
    let mut handedness: Option<usize> = None;
    let n = outs.len();
    let mut i: usize = 0;
    assert(outs@.take(0) =~= Seq::<OutputInfo>::empty());
    while i < n
        invariant
            n == outs@.len(),
            i <= n,
            score_pat@ == score_tag(),
            left_pat@ == left_tag(),
            right_pat@ == right_tag(),
            hand_pat@ == hand_tag(),
            as_position(landmarks) == last_where(outs@.take(i as int), landmark_role()),
            as_position(score) == last_where(outs@.take(i as int), score_role()),
            as_position(handedness) == last_where(outs@.take(i as int), handedness_role()),
        decreases n - i,
    {
        let out = &outs[i];
        let name = chars_of(out.name.as_str());
        proof {
            lemma_last_where_step(outs@, landmark_role(), i as int);
            lemma_last_where_step(outs@, score_role(), i as int);
            lemma_last_where_step(outs@, handedness_role(), i as int);
        }
        if out.len == LANDMARK_VALUES {
            landmarks = Some(i);
        } else if contains_chars(&name, &score_pat) {
            score = Some(i);
        } else if contains_chars(&name, &left_pat) || contains_chars(&name, &right_pat)
            || contains_chars(&name, &hand_pat) {
            handedness = Some(i);
        }
        i = i + 1;
    }
    assert(outs@.take(n as int) =~= outs@);
    match landmarks {
        Some(l) => {
            let roles = OutputRoles { landmarks: l, score, handedness };
            proof {
                lemma_classify_law(outs@, roles);
            }
            Ok(roles)
        },
        None => {
            proof {
                lemma_classify_missing_law(outs@);
            }
            Err(DetectError::MissingLandmarks)
        },
    }
}

} // verus!

verus! {

/// `t` appears, character for character, in `s` from position `k` on.
pub open spec fn tag_at(s: Seq<char>, t: Seq<char>, k: int) -> bool {
    0 <= k && k + t.len() <= s.len() && forall|j: int| 0 <= j < t.len() ==> s[k + j] == #[trigger] t[j]
}

/// `t` appears, character for character, somewhere in `s`.
pub open spec fn contains_tag(s: Seq<char>, t: Seq<char>) -> bool {
    exists|k: int| tag_at(s, t, k)
}

/// The output holds 63 values, one x, y, z triple for each of the 21 landmarks.
pub open spec fn holds_63_values(o: OutputInfo) -> bool {
    o.len == 63
}

/// Not the landmark output, and its name contains `score`.
pub open spec fn named_score(o: OutputInfo) -> bool {
    o.len != 63 && contains_tag(o.name@, seq!['s', 'c', 'o', 'r', 'e'])
}

/// Not the landmark output, its name does not contain `score`, and it contains
/// `left`, `right` or `hand`.
pub open spec fn named_hand(o: OutputInfo) -> bool {
    &&& o.len != 63
    &&& !contains_tag(o.name@, seq!['s', 'c', 'o', 'r', 'e'])
    &&& (contains_tag(o.name@, seq!['l', 'e', 'f', 't']) || contains_tag(
        o.name@,
        seq!['r', 'i', 'g', 'h', 't'],
    ) || contains_tag(o.name@, seq!['h', 'a', 'n', 'd']))
}

proof fn lemma_has_substring_is_contains_tag(s: Seq<char>, t: Seq<char>)
    ensures
        has_substring(s, t) == contains_tag(s, t),
{
    if has_substring(s, t) {
        let k = choose|k: int| crate::text::occurs_at(s, t, k);
        assert forall|j: int| 0 <= j < t.len() implies s[k + j] == #[trigger] t[j] by {
            assert(s.subrange(k, k + t.len())[j] == s[k + j]);
        }
        assert(tag_at(s, t, k));
    }
    if contains_tag(s, t) {
        let k = choose|k: int| tag_at(s, t, k);
        assert(s.subrange(k, k + t.len()) =~= t);
        assert(crate::text::occurs_at(s, t, k));
    }
}

proof fn lemma_roles_are_tags(o: OutputInfo)
    ensures
        landmark_role()(o) == holds_63_values(o),
        score_role()(o) == named_score(o),
        handedness_role()(o) == named_hand(o),
{
    lemma_has_substring_is_contains_tag(o.name@, score_tag());
    lemma_has_substring_is_contains_tag(o.name@, left_tag());
    lemma_has_substring_is_contains_tag(o.name@, right_tag());
    lemma_has_substring_is_contains_tag(o.name@, hand_tag());
    assert(score_tag() =~= seq!['s', 'c', 'o', 'r', 'e']);
    assert(left_tag() =~= seq!['l', 'e', 'f', 't']);
    assert(right_tag() =~= seq!['r', 'i', 'g', 'h', 't']);
    assert(hand_tag() =~= seq!['h', 'a', 'n', 'd']);
}

proof fn lemma_last_where_exact(outs: Seq<OutputInfo>, p: spec_fn(OutputInfo) -> bool)
    ensures
        match last_where(outs, p) {
            Some(i) => 0 <= i < outs.len() && p(outs[i]) && forall|j: int|
                i < j < outs.len() ==> !p(#[trigger] outs[j]),
            None => forall|j: int| 0 <= j < outs.len() ==> !p(#[trigger] outs[j]),
        },
    decreases outs.len(),
{
    if outs.len() > 0 {
        let rest = outs.drop_last();
        lemma_last_where_exact(rest, p);
        assert forall|j: int| 0 <= j < rest.len() implies outs[j] == rest[j] by {}
    }
}

/// What `classify_outputs` decides, stated over the outputs themselves: the landmark
/// output is the last one with 63 values; the score is the last other output whose
/// name contains `score`; the handedness is the last other output whose name does not
/// contain `score` but contains `left`, `right` or `hand`. Every output that
/// qualifies for a role is at or before the one chosen for it.
pub proof fn lemma_classify_law(outs: Seq<OutputInfo>, roles: OutputRoles)
    requires
        last_where(outs, landmark_role()) == Some(roles.landmarks as int),
        last_where(outs, score_role()) == as_position(roles.score),
        last_where(outs, handedness_role()) == as_position(roles.handedness),
    ensures
        roles.landmarks < outs.len(),
        holds_63_values(outs[roles.landmarks as int]),
        forall|j: int| roles.landmarks < j < outs.len() ==> !holds_63_values(#[trigger] outs[j]),
        forall|i: int|
            0 <= i < outs.len() && named_score(#[trigger] outs[i]) ==> (roles.score matches Some(s)
                && i <= s),
        roles.score matches Some(s) ==> s < outs.len() && named_score(outs[s as int]) && forall|
            j: int,
        | s < j < outs.len() ==> !named_score(#[trigger] outs[j]),
        forall|i: int|
            0 <= i < outs.len() && named_hand(#[trigger] outs[i]) ==> (roles.handedness matches Some(
                h,
            ) && i <= h),
        roles.handedness matches Some(h) ==> h < outs.len() && named_hand(outs[h as int])
            && forall|j: int| h < j < outs.len() ==> !named_hand(#[trigger] outs[j]),
{
    lemma_last_where_exact(outs, landmark_role());
    lemma_last_where_exact(outs, score_role());
    lemma_last_where_exact(outs, handedness_role());
    assert forall|i: int| 0 <= i < outs.len() implies {
        &&& landmark_role()(#[trigger] outs[i]) == holds_63_values(outs[i])
        &&& score_role()(outs[i]) == named_score(outs[i])
        &&& handedness_role()(outs[i]) == named_hand(outs[i])
    } by {
        lemma_roles_are_tags(outs[i]);
    }
}

/// When `classify_outputs` fails, no output holds 63 values.
pub proof fn lemma_classify_missing_law(outs: Seq<OutputInfo>)
    requires
        last_where(outs, landmark_role()) is None,
    ensures
        forall|j: int| 0 <= j < outs.len() ==> !holds_63_values(#[trigger] outs[j]),
{
    lemma_last_where_exact(outs, landmark_role());
}

} // verus!
