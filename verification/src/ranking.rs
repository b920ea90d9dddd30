//! The order of a population: ascending by score, lower being better.
//!
//! A population is modelled as a sequence of `(individual, score)` pairs.
//! Ranking is stable: members with equal scores keep their relative order,
//! which makes the ranked form of a population unique.

use vstd::prelude::*;

verus! {

/// Scores never decrease from the front of `s` to its back.
pub open spec fn is_ranked<T>(s: Seq<(T, u64)>) -> bool {
    forall|i: int, j: int| 0 <= i <= j < s.len() ==> s[i].1 <= s[j].1
}

/// Where a newcomer with `score` joins `s`: directly behind the last member
/// that scores no higher, or at the front if every member scores higher.
pub open spec fn slot_for<T>(s: Seq<(T, u64)>, score: u64) -> int
    decreases s.len(),
{
    if s.len() == 0 || s.last().1 <= score {
        s.len() as int
    } else {
        slot_for(s.drop_last(), score)
    }
}

/// `s` with `member` put in at its slot.
pub open spec fn place<T>(s: Seq<(T, u64)>, member: (T, u64)) -> Seq<(T, u64)> {
    s.insert(slot_for(s, member.1), member)
}

/// The members of `s` in rank order: each member of `s`, from first to last,
/// placed among those before it.
pub open spec fn ranked<T>(s: Seq<(T, u64)>) -> Seq<(T, u64)>
    decreases s.len(),
{
    if s.len() == 0 {
        s
    } else {
        place(ranked(s.drop_last()), s.last())
    }
}

/// The slot lies within `s`, every member from the slot on scores higher
/// than `score`, and the member just before the slot scores no higher.
pub proof fn lemma_slot_for_bounds<T>(s: Seq<(T, u64)>, score: u64)
    ensures
        0 <= slot_for(s, score) <= s.len(),
        forall|j: int| slot_for(s, score) <= j < s.len() ==> (#[trigger] s[j]).1 > score,
        slot_for(s, score) > 0 ==> s[slot_for(s, score) - 1].1 <= score,
    decreases s.len(),
{
    if s.len() == 0 || s.last().1 <= score {
    } else {
        let front = s.drop_last();
        lemma_slot_for_bounds(front, score);
        assert forall|j: int| slot_for(s, score) <= j < s.len() implies (#[trigger] s[j]).1
            > score by {
            if j < front.len() {
                assert(front[j] == s[j]);
            }
        }
    }
}

/// Two sequences woven into one from the back: the higher of the two last
/// scores comes last, and on a tie the member of `right` does. For ranked
/// inputs the result is ranked, with every member of `left` ahead of the
/// members of `right` that score the same.
pub open spec fn merged<T>(left: Seq<(T, u64)>, right: Seq<(T, u64)>) -> Seq<(T, u64)>
    decreases left.len() + right.len(),
{
    if left.len() == 0 {
        right
    } else if right.len() == 0 {
        left
    } else if left.last().1 <= right.last().1 {
        merged(left, right.drop_last()).push(right.last())
    } else {
        merged(left.drop_last(), right).push(left.last())
    }
}

/// Placing a member into a ranked sequence keeps it ranked.
pub proof fn lemma_place_keeps_ranked<T>(s: Seq<(T, u64)>, member: (T, u64))
    requires
        is_ranked(s),
    ensures
        is_ranked(place(s, member)),
{
    let at = slot_for(s, member.1);
    let out = place(s, member);
    lemma_slot_for_bounds(s, member.1);
    assert forall|i: int, j: int| 0 <= i <= j < out.len() implies out[i].1 <= out[j].1 by {
        if i < at && j > at {
            assert(out[i] == s[i]);
            assert(out[j] == s[j - 1]);
        } else if i < at && j == at {
            assert(out[i] == s[i]);
            assert(s[i].1 <= s[at - 1].1);
        } else if i == at && j > at {
            assert(out[j] == s[j - 1]);
        } else if i > at {
            assert(out[i] == s[i - 1]);
            assert(out[j] == s[j - 1]);
        } else if j < at {
            assert(out[i] == s[i]);
            assert(out[j] == s[j]);
        }
    }
}

/// The ranked form of any sequence is ranked.
pub proof fn lemma_ranked_is_ranked<T>(s: Seq<(T, u64)>)
    ensures
        is_ranked(ranked(s)),
    decreases s.len(),
{
    if s.len() > 0 {
        lemma_ranked_is_ranked(s.drop_last());
        lemma_place_keeps_ranked(ranked(s.drop_last()), s.last());
    }
}

/// Ranking neither adds nor drops a member: the ranked form holds exactly
/// the members of `s`, each as many times as `s` does.
pub proof fn lemma_ranked_permutes<T>(s: Seq<(T, u64)>)
    ensures
        ranked(s).len() == s.len(),
        ranked(s).to_multiset() == s.to_multiset(),
    decreases s.len(),
{
    if s.len() > 0 {
        let front = s.drop_last();
        lemma_ranked_permutes(front);
        lemma_slot_for_bounds(ranked(front), s.last().1);
        vstd::seq_lib::to_multiset_insert(
            ranked(front),
            slot_for(ranked(front), s.last().1),
            s.last(),
        );
        vstd::seq_lib::to_multiset_build(front, s.last());
        assert(front.push(s.last()) =~= s);
    }
}

/// Ranking a population that is already in rank order changes nothing.
pub proof fn lemma_ranked_fixes_ranked<T>(s: Seq<(T, u64)>)
    requires
        is_ranked(s),
    ensures
        ranked(s) == s,
    decreases s.len(),
{
    if s.len() > 0 {
        let front = s.drop_last();
        assert forall|i: int, j: int| 0 <= i <= j < front.len() implies front[i].1
            <= front[j].1 by {
            assert(front[i] == s[i]);
            assert(front[j] == s[j]);
        }
        lemma_ranked_fixes_ranked(front);
        if front.len() > 0 {
            assert(front.last() == s[s.len() - 2]);
        }
        assert(slot_for(front, s.last().1) == front.len());
        assert(front.insert(front.len() as int, s.last()) =~= s);
    }
}

/// Ranking twice gives what ranking once gives.
pub proof fn lemma_ranked_idempotent<T>(s: Seq<(T, u64)>)
    ensures
        ranked(ranked(s)) == ranked(s),
{
    lemma_ranked_is_ranked(s);
    lemma_ranked_fixes_ranked(ranked(s));
}

/// Every member of `s` occurs in its ranked form, and the other way round.
pub proof fn lemma_ranked_same_members<T>(s: Seq<(T, u64)>)
    ensures
        forall|i: int| 0 <= i < s.len() ==> ranked(s).contains(#[trigger] s[i]),
        forall|i: int| 0 <= i < s.len() ==> s.contains(#[trigger] ranked(s)[i]),
{
    lemma_ranked_permutes(s);
    s.to_multiset_ensures();
    ranked(s).to_multiset_ensures();
    assert forall|i: int| 0 <= i < s.len() implies ranked(s).contains(#[trigger] s[i]) by {
        assert(s.contains(s[i]));
        assert(s.to_multiset().count(s[i]) > 0);
        assert(ranked(s).to_multiset().count(s[i]) > 0);
    }
    assert forall|i: int| 0 <= i < s.len() implies s.contains(#[trigger] ranked(s)[i]) by {
        assert(ranked(s).contains(ranked(s)[i]));
        assert(ranked(s).to_multiset().count(ranked(s)[i]) > 0);
        assert(s.to_multiset().count(ranked(s)[i]) > 0);
    }
}

/// The first member of the ranked form scores no higher than any member.
pub proof fn lemma_ranked_first_is_least<T>(s: Seq<(T, u64)>)
    requires
        s.len() > 0,
    ensures
        ranked(s).len() == s.len(),
        forall|i: int| 0 <= i < s.len() ==> ranked(s)[0].1 <= (#[trigger] s[i]).1,
{
    lemma_ranked_permutes(s);
    lemma_ranked_is_ranked(s);
    lemma_ranked_same_members(s);
    assert forall|i: int| 0 <= i < s.len() implies ranked(s)[0].1 <= (#[trigger] s[i]).1 by {
        assert(ranked(s).contains(s[i]));
        let j = choose|j: int| 0 <= j < ranked(s).len() && ranked(s)[j] == s[i];
        assert(ranked(s)[0].1 <= ranked(s)[j].1);
    }
}

/// Placing behind a sequence that ends in `last`: the newcomer goes to the
/// very end if `last` scores no higher, and is placed among the others if
/// it does.
proof fn lemma_place_after_push<T>(s: Seq<(T, u64)>, last: (T, u64), member: (T, u64))
    ensures
        place(s.push(last), member) == if last.1 <= member.1 {
            s.push(last).push(member)
        } else {
            place(s, member).push(last)
        },
{
    let longer = s.push(last);
    assert(longer.drop_last() =~= s);
    assert(longer.last() == last);
    lemma_slot_for_bounds(s, member.1);
    if last.1 <= member.1 {
        assert(longer.insert(longer.len() as int, member) =~= longer.push(member));
    } else {
        assert(slot_for(longer, member.1) == slot_for(s, member.1));
        assert(longer.insert(slot_for(s, member.1), member) =~= s.insert(
            slot_for(s, member.1),
            member,
        ).push(last));
    }
}

/// The members of `s` that score exactly `score`, in the order they have
/// in `s`.
pub open spec fn scoring<T>(s: Seq<(T, u64)>, score: u64) -> Seq<(T, u64)>
    decreases s.len(),
{
    if s.len() == 0 {
        s
    } else if s.last().1 == score {
        scoring(s.drop_last(), score).push(s.last())
    } else {
        scoring(s.drop_last(), score)
    }
}

/// How the members of one score change when a member is added at the end.
proof fn lemma_scoring_of_push<T>(s: Seq<(T, u64)>, member: (T, u64), score: u64)
    ensures
        scoring(s.push(member), score) == if member.1 == score {
            scoring(s, score).push(member)
        } else {
            scoring(s, score)
        },
{
    let longer = s.push(member);
    assert(longer.drop_last() =~= s);
    assert(longer.last() == member);
}

/// Placing a member adds it behind the members with its own score and
/// leaves the members of every other score as they were.
proof fn lemma_scoring_of_place<T>(s: Seq<(T, u64)>, member: (T, u64), score: u64)
    ensures
        scoring(place(s, member), score) == if member.1 == score {
            scoring(s, score).push(member)
        } else {
            scoring(s, score)
        },
    decreases s.len(),
{
    if s.len() == 0 {
        assert(place(s, member) =~= s.push(member));
        lemma_scoring_of_push(s, member, score);
    } else {
        let front = s.drop_last();
        assert(front.push(s.last()) =~= s);
        lemma_place_after_push(front, s.last(), member);
        lemma_scoring_of_push(front, s.last(), score);
        if s.last().1 <= member.1 {
            lemma_scoring_of_push(s, member, score);
        } else {
            lemma_scoring_of_place(front, member, score);
            lemma_scoring_of_push(place(front, member), s.last(), score);
        }
    }
}

/// Ranking is stable: the members with any one score stand in the ranked
/// form in the order they had before.
pub proof fn lemma_ranked_is_stable<T>(s: Seq<(T, u64)>, score: u64)
    ensures
        scoring(ranked(s), score) == scoring(s, score),
    decreases s.len(),
{
    if s.len() > 0 {
        let front = s.drop_last();
        assert(front.push(s.last()) =~= s);
        lemma_ranked_is_stable(front, score);
        lemma_scoring_of_place(ranked(front), s.last(), score);
        lemma_scoring_of_push(front, s.last(), score);
    }
}

/// Placing a member into a merge is merging with the member placed into
/// the right-hand side.
proof fn lemma_place_into_merged<T>(left: Seq<(T, u64)>, right: Seq<(T, u64)>, member: (T, u64))
    ensures
        place(merged(left, right), member) == merged(left, place(right, member)),
    decreases left.len() + right.len(),
{
    let grown = place(right, member);
    lemma_slot_for_bounds(right, member.1);
    if right.len() == 0 {
        assert(grown =~= seq![member]);
        assert(grown.drop_last() =~= right);
        if left.len() > 0 {
            let front = left.drop_last();
            assert(front.push(left.last()) =~= left);
            lemma_place_after_push(front, left.last(), member);
            if left.last().1 > member.1 {
                lemma_place_into_merged(front, right, member);
                assert(merged(front, right) == front);
                assert(place(right, member) == grown);
            }
        }
    } else if left.len() == 0 {
    } else {
        let left_front = left.drop_last();
        let right_front = right.drop_last();
        assert(right_front.push(right.last()) =~= right);
        lemma_place_after_push(right_front, right.last(), member);
        if right.last().1 <= member.1 {
            assert(grown.last() == member);
            assert(grown.drop_last() =~= right);
            if left.last().1 <= member.1 {
                let woven = merged(left, right);
                assert(woven.last().1 <= member.1);
                assert(woven.drop_last().push(woven.last()) =~= woven);
                lemma_place_after_push(woven.drop_last(), woven.last(), member);
            } else {
                lemma_place_into_merged(left_front, right, member);
                lemma_place_after_push(merged(left_front, right), left.last(), member);
            }
        } else {
            assert(grown.last() == right.last());
            assert(grown.drop_last() =~= place(right_front, member));
            if left.last().1 <= right.last().1 {
                lemma_place_into_merged(left, right_front, member);
                lemma_place_after_push(merged(left, right_front), right.last(), member);
            } else {
                lemma_place_into_merged(left_front, right, member);
                lemma_place_after_push(merged(left_front, right), left.last(), member);
            }
        }
    }
}

/// Ranking two sequences one after the other is merging their ranked
/// forms.
pub proof fn lemma_ranked_concat<T>(first: Seq<(T, u64)>, second: Seq<(T, u64)>)
    ensures
        ranked(first + second) == merged(ranked(first), ranked(second)),
    decreases second.len(),
{
    if second.len() == 0 {
        assert(first + second =~= first);
    } else {
        let front = second.drop_last();
        assert((first + second).drop_last() =~= first + front);
        assert((first + second).last() == second.last());
        lemma_ranked_concat(first, front);
        lemma_place_into_merged(ranked(first), ranked(front), second.last());
    }
}

/// Merging two ranked sequences ranks the two of them laid end to end.
pub proof fn lemma_merged_of_ranked<T>(left: Seq<(T, u64)>, right: Seq<(T, u64)>)
    requires
        is_ranked(left),
        is_ranked(right),
    ensures
        merged(left, right) == ranked(left + right),
        is_ranked(merged(left, right)),
{
    lemma_ranked_fixes_ranked(left);
    lemma_ranked_fixes_ranked(right);
    lemma_ranked_concat(left, right);
    lemma_ranked_is_ranked(left + right);
}

/// Merges two vectors as [`merged`] describes.
pub fn merge_ranked<T>(left: Vec<(T, u64)>, right: Vec<(T, u64)>) -> (woven: Vec<(T, u64)>)
    ensures
        woven@ == merged(left@, right@),
{
    let ghost whole = merged(left@, right@);
    let mut left = left;
    let mut right = right;
    let mut tail: Vec<(T, u64)> = Vec::with_capacity(right.len());
    while left.len() > 0 && right.len() > 0
        invariant
            whole == merged(left@, right@) + tail@.reverse(),
        decreases left@.len() + right@.len(),
    {
        let ghost before = merged(left@, right@);
        let ghost settled = tail@;
        let taken = if left[left.len() - 1].1 <= right[right.len() - 1].1 {
            right.pop()
        } else {
            left.pop()
        };
        match taken {
            Some(member) => {
                tail.push(member);
                proof {
                    assert(before == merged(left@, right@).push(member));
                    assert(before + settled.reverse() =~= merged(left@, right@) + tail@.reverse());
                }
            },
            None => {},
        }
    }
    let mut woven = if left.len() == 0 {
        right
    } else {
        left
    };
    while tail.len() > 0
        invariant
            whole == woven@ + tail@.reverse(),
        decreases tail@.len(),
    {
        let ghost before = woven@;
        let ghost settled = tail@;
        match tail.pop() {
            Some(member) => {
                woven.push(member);
                proof {
                    assert(before + settled.reverse() =~= woven@ + tail@.reverse());
                }
            },
            None => {},
        }
    }
    proof {
        assert(woven@ + tail@.reverse() =~= woven@);
    }
    woven
}

/// Puts `members` in rank order: ascending by score, members with equal
/// scores keeping their relative order.
pub fn rank_members<T>(members: Vec<(T, u64)>) -> (in_order: Vec<(T, u64)>)
    ensures
        in_order@ == ranked(members@),
    decreases members@.len(),
{
    let n: usize = members.len();
    if n < 2 {
        proof {
            lemma_ranked_fixes_ranked(members@);
        }
        return members;
    }
    let ghost whole = members@;
    let mut first = members;
    let second = first.split_off(n / 2);
    proof {
        assert(whole =~= first@ + second@);
        lemma_ranked_concat(first@, second@);
    }
    let first = rank_members(first);
    let second = rank_members(second);
    merge_ranked(first, second)
}

} // verus!
