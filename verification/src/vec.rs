//! Operations on generic sequences: removing repeats, filtering by a
//! predicate, reversing and splitting.
use std::collections::HashSet;
use std::hash::Hash;
use vstd::prelude::*;
use vstd::std_specs::hash::obeys_key_model;

verus! {

/// The elements of `s` in order, each kept only where it occurs first.
pub open spec fn first_occurrences<T>(s: Seq<T>) -> Seq<T>
    decreases s.len(),
{
    if s.len() == 0 {
        Seq::empty()
    } else if s.drop_last().contains(s.last()) {
        first_occurrences(s.drop_last())
    } else {
        first_occurrences(s.drop_last()).push(s.last())
    }
}

/// The elements of `s` whose flag in `keep` is set, in order.
pub open spec fn retained<T>(s: Seq<T>, keep: Seq<bool>) -> Seq<T>
    recommends
        keep.len() == s.len(),
    decreases s.len(),
{
    if s.len() == 0 || keep.len() != s.len() {
        Seq::empty()
    } else if keep.last() {
        retained(s.drop_last(), keep.drop_last()).push(s.last())
    } else {
        retained(s.drop_last(), keep.drop_last())
    }
}

/// `keep` records one possible answer of `predicate` for each element of `s`.
pub open spec fn answers_of<T, F: Fn(&T) -> bool>(predicate: F, s: Seq<T>, keep: Seq<bool>) -> bool {
    &&& keep.len() == s.len()
    &&& forall|i: int| 0 <= i < s.len() ==> call_ensures(predicate, (&s[i],), #[trigger] keep[i])
}

/// `predicate` answers on every value as the mathematical predicate `p` does.
pub open spec fn decides<T, F: Fn(&T) -> bool>(predicate: F, p: spec_fn(T) -> bool) -> bool {
    forall|x: T, answer: bool| #[trigger] call_ensures(predicate, (&x,), answer) ==> answer == p(x)
}

/// Every clone of a `T` equals the value it was cloned from.
pub open spec fn clone_is_exact<T: Clone>() -> bool {
    forall|a: T, b: T| #[trigger] call_ensures(T::clone, (&a,), b) ==> a == b
}

/// `copy` has the length of `original`, and each of its elements is a clone
/// of the element at the same place.
pub open spec fn is_clone_of<T: Clone>(copy: Seq<T>, original: Seq<T>) -> bool {
    &&& copy.len() == original.len()
    &&& forall|i: int| 0 <= i < original.len() ==> cloned(original[i], #[trigger] copy[i])
}

/// First occurrences hold every element of the sequence, and none twice.
pub proof fn lemma_first_occurrences_distinct<T>(s: Seq<T>)
    ensures
        first_occurrences(s).no_duplicates(),
        forall|x: T| first_occurrences(s).contains(x) <==> s.contains(x),
    decreases s.len(),
{
    if s.len() > 0 {
        let front = s.drop_last();
        let last = s.last();
        lemma_first_occurrences_distinct(front);
        let kept = first_occurrences(front);
        let all = first_occurrences(s);
        assert(s =~= front.push(last));
        assert forall|x: T| all.contains(x) implies s.contains(x) by {
            let i = choose|i: int| 0 <= i < all.len() && all[i] == x;
            if i < kept.len() {
                assert(kept[i] == x);
                assert(kept.contains(x));
                assert(front.contains(x));
                let j = choose|j: int| 0 <= j < front.len() && front[j] == x;
                assert(s[j] == x);
            } else {
                assert(s[s.len() - 1] == x);
            }
        }
        assert forall|x: T| s.contains(x) implies all.contains(x) by {
            let i = choose|i: int| 0 <= i < s.len() && s[i] == x;
            if i < s.len() - 1 {
                assert(front[i] == x);
                assert(front.contains(x));
                assert(kept.contains(x));
                let j = choose|j: int| 0 <= j < kept.len() && kept[j] == x;
                assert(all[j] == x);
            } else if front.contains(x) {
                assert(kept.contains(x));
            } else {
                assert(all[kept.len() as int] == x);
            }
        }
    }
}

/// A sequence without repeats is its own sequence of first occurrences.
pub proof fn lemma_first_occurrences_of_distinct<T>(s: Seq<T>)
    requires
        s.no_duplicates(),
    ensures
        first_occurrences(s) == s,
    decreases s.len(),
{
    if s.len() > 0 {
        let front = s.drop_last();
        lemma_first_occurrences_of_distinct(front);
        if front.contains(s.last()) {
            let i = choose|i: int| 0 <= i < front.len() && front[i] == s.last();
            assert(s[i] == s[s.len() - 1]);
        }
        assert(front.push(s.last()) =~= s);
    }
}

/// Removing repeats a second time changes nothing.
pub proof fn lemma_first_occurrences_idempotent<T>(s: Seq<T>)
    ensures
        first_occurrences(first_occurrences(s)) == first_occurrences(s),
{
    lemma_first_occurrences_distinct(s);
    lemma_first_occurrences_of_distinct(first_occurrences(s));
}

fn swap_items<T>(v: &mut Vec<T>, i: usize, j: usize)
    requires
        i < j < old(v).len(),
    ensures
        final(v)@ == old(v)@.update(i as int, old(v)@[j as int]).update(
            j as int,
            old(v)@[i as int],
        ),
{
    let (front, back) = v.as_mut_slice().split_at_mut(j);
    core::mem::swap(&mut front[i], &mut back[0]);
}

/// Removes from `v` every element equal to one before it, keeping the
/// order of first occurrence.
///
/// Whatever the element type's equality and hashing do, elements are only
/// dropped, never added or moved past one another. Where they agree with
/// mathematical equality, what is left are the first occurrences.
pub fn dedup<T: Eq + Hash + Copy>(v: &mut Vec<T>)
    ensures
        exists|keep: Seq<bool>|
            keep.len() == old(v)@.len() && final(v)@ == #[trigger] retained(old(v)@, keep),
        obeys_key_model::<T>() ==> final(v)@ == first_occurrences(old(v)@),
{
    let len = v.len();
    let mut seen: HashSet<T> = HashSet::new();
    let mut kept: usize = 0;
    let mut i: usize = 0;
    let ghost mut keep: Seq<bool> = Seq::empty();
    while i < len
        invariant
            v.len() == len,
            len == old(v).len(),
            kept <= i <= len,
            keep.len() == i,
            forall|k: int| i <= k < len ==> v@[k] == old(v)@[k],
            v@.subrange(0, kept as int) == retained(old(v)@.subrange(0, i as int), keep),
            obeys_key_model::<T>() ==> {
                &&& v@.subrange(0, kept as int) == first_occurrences(old(v)@.subrange(0, i as int))
                &&& forall|x: T| seen@.contains(x) <==> old(v)@.subrange(0, i as int).contains(x)
            },
        decreases len - i,
    {
        let item = v[i];
        let fresh = seen.insert(item);
        proof {
            let before = old(v)@.subrange(0, i as int);
            let after = old(v)@.subrange(0, i + 1);
            assert(after.drop_last() =~= before);
            assert(after.last() == item);
            assert(keep.push(fresh).drop_last() =~= keep);
            keep = keep.push(fresh);
            if obeys_key_model::<T>() {
                assert forall|x: T| seen@.contains(x) <==> after.contains(x) by {
                    if after.contains(x) {
                        let k = choose|k: int| 0 <= k < after.len() && after[k] == x;
                        if k < i {
                            assert(before[k] == x);
                        }
                    }
                    if before.contains(x) {
                        let k = choose|k: int| 0 <= k < before.len() && before[k] == x;
                        assert(after[k] == x);
                    }
                    assert(after[i as int] == item);
                }
            }
        }
        if fresh {
            v.set(kept, item);
            proof {
                assert(v@.subrange(0, kept + 1) =~= retained(
                    old(v)@.subrange(0, i as int),
                    keep.drop_last(),
                ).push(item));
            }
            kept += 1;
        }
        i += 1;
    }
    v.truncate(kept);
    proof {
        assert(old(v)@.subrange(0, len as int) =~= old(v)@);
    }
}

/// Where `predicate` answers as `p` does, the elements retained under its
/// answers are those that `p` holds of.
pub proof fn lemma_retained_is_filter<T, F: Fn(&T) -> bool>(
    predicate: F,
    s: Seq<T>,
    keep: Seq<bool>,
    p: spec_fn(T) -> bool,
)
    requires
        answers_of(predicate, s, keep),
        decides(predicate, p),
    ensures
        retained(s, keep) == s.filter(p),
    decreases s.len(),
{
    reveal(Seq::filter);
    if s.len() > 0 {
        let front = s.drop_last();
        let front_keep = keep.drop_last();
        assert forall|i: int| 0 <= i < front.len() implies call_ensures(
            predicate,
            (&front[i],),
            #[trigger] front_keep[i],
        ) by {
            assert(call_ensures(predicate, (&s[i],), keep[i]));
        }
        lemma_retained_is_filter(predicate, front, front_keep, p);
        assert(call_ensures(predicate, (&s[s.len() - 1],), keep[s.len() - 1]));
    }
}

/// Keeps in `v` the elements that `predicate` accepts, in their order, and
/// drops the others. The predicate is asked once per element, in order.
///
/// The elements kept are those for which the predicate answered `true`;
/// where the predicate computes a mathematical predicate `p`, they are
/// `filter(p)` of the old sequence.
pub fn retain_if<T>(v: &mut Vec<T>, predicate: impl Fn(&T) -> bool)
    requires
        forall|i: int| 0 <= i < old(v)@.len() ==> call_requires(predicate, (&old(v)@[i],)),
    ensures
        exists|keep: Seq<bool>| #[trigger]
            answers_of(predicate, old(v)@, keep) && final(v)@ == retained(old(v)@, keep),
        forall|p: spec_fn(T) -> bool|
            #![trigger decides(predicate, p)]
            #![trigger old(v)@.filter(p)]
            decides(predicate, p) ==> final(v)@ == old(v)@.filter(p),
{
    let len = v.len();
    let mut kept: usize = 0;
    let mut i: usize = 0;
    let ghost mut keep: Seq<bool> = Seq::empty();
    while i < len
        invariant
            v.len() == len,
            len == old(v).len(),
            kept <= i <= len,
            forall|k: int| 0 <= k < len ==> call_requires(predicate, (&old(v)@[k],)),
            forall|k: int| i <= k < len ==> v@[k] == old(v)@[k],
            answers_of(predicate, old(v)@.subrange(0, i as int), keep),
            v@.subrange(0, kept as int) == retained(old(v)@.subrange(0, i as int), keep),
        decreases len - i,
    {
        let answer = predicate(&v[i]);
        proof {
            let before = old(v)@.subrange(0, i as int);
            let after = old(v)@.subrange(0, i + 1);
            let keep_after = keep.push(answer);
            assert(after.drop_last() =~= before);
            assert(keep_after.drop_last() =~= keep);
            assert forall|k: int| 0 <= k < after.len() implies call_ensures(
                predicate,
                (&after[k],),
                #[trigger] keep_after[k],
            ) by {
                if k < i {
                    assert(call_ensures(predicate, (&before[k],), keep[k]));
                }
            }
            keep = keep_after;
        }
        if answer {
            if kept < i {
                swap_items(v, kept, i);
            }
            kept += 1;
        }
        i += 1;
    }
    v.truncate(kept);
    proof {
        assert(old(v)@.subrange(0, len as int) =~= old(v)@);
        assert(answers_of(predicate, old(v)@, keep));
        assert forall|p: spec_fn(T) -> bool| #[trigger] decides(predicate, p) implies v@ == old(
            v,
        )@.filter(p) by {
            lemma_retained_is_filter(predicate, old(v)@, keep, p);
        }
    }
}

/// Reverses the order of the elements of `v`, swapping in place from both
/// ends toward the middle.
pub fn reverse_in_place<T>(v: &mut Vec<T>)
    ensures
        final(v)@ == old(v)@.reverse(),
{
    let len = v.len();
    let mut i: usize = 0;
    while i < len / 2
        invariant
            v.len() == len,
            len == old(v).len(),
            i <= len / 2,
            forall|k: int| 0 <= k < i ==> v@[k] == old(v)@[len - 1 - k],
            forall|k: int| len - i <= k < len ==> v@[k] == old(v)@[len - 1 - k],
            forall|k: int| i <= k < len - i ==> v@[k] == old(v)@[k],
        decreases len / 2 - i,
    {
        swap_items(v, i, len - 1 - i);
        i += 1;
    }
}

/// Reversing twice gives the sequence back.
pub proof fn lemma_reverse_twice<T>(s: Seq<T>)
    ensures
        s.reverse().reverse() == s,
{
    assert(s.reverse().reverse() =~= s);
}

/// Clones the elements of `v` before index `at` into one sequence and the
/// rest into another; `v` itself is left as it was.
///
/// `at` may be anything from zero to the length of `v`, both included; a
/// greater index is out of bounds and is left out by the precondition.
pub fn split_at_vec<T: Clone>(v: &mut Vec<T>, at: usize) -> (parts: (Vec<T>, Vec<T>))
    requires
        at <= old(v).len(),
    ensures
        final(v)@ == old(v)@,
        is_clone_of(parts.0@, old(v)@.subrange(0, at as int)),
        is_clone_of(parts.1@, old(v)@.subrange(at as int, old(v)@.len() as int)),
{
    let len = v.len();
    let mut left: Vec<T> = Vec::with_capacity(at);
    let mut right: Vec<T> = Vec::with_capacity(len - at);
    let mut i: usize = 0;
    while i < at
        invariant
            v@ == old(v)@,
            len == v.len(),
            i <= at <= len,
            left.len() == i,
            forall|k: int| 0 <= k < i ==> cloned(v@[k], #[trigger] left@[k]),
        decreases at - i,
    {
        left.push(v[i].clone());
        i += 1;
    }
    while i < len
        invariant
            v@ == old(v)@,
            len == v.len(),
            at <= i <= len,
            right.len() == i - at,
            forall|k: int| 0 <= k < i - at ==> cloned(v@[at + k], #[trigger] right@[k]),
        decreases len - i,
    {
        right.push(v[i].clone());
        i += 1;
    }
    (left, right)
}

/// The index at which a sequence was to be split lies beyond its length.
#[derive(Debug, Clone, Copy, PartialEq, Eq, Structural)]
pub struct IndexOutOfBounds;

/// `split_at_vec` for any index: an index beyond the length of `v` is
/// refused as `IndexOutOfBounds`, and every other index splits. `v` is
/// left as it was either way.
pub fn try_split_at_vec<T: Clone>(v: &mut Vec<T>, at: usize) -> (parts: Result<
    (Vec<T>, Vec<T>),
    IndexOutOfBounds,
>)
    ensures
        final(v)@ == old(v)@,
        match parts {
            Ok(pair) => {
                &&& at <= old(v)@.len()
                &&& is_clone_of(pair.0@, old(v)@.subrange(0, at as int))
                &&& is_clone_of(pair.1@, old(v)@.subrange(at as int, old(v)@.len() as int))
            },
            Err(_) => at > old(v)@.len(),
        },
{
    if at > v.len() {
        Err(IndexOutOfBounds)
    } else {
        Ok(split_at_vec(v, at))
    }
}

/// Splitting at the length leaves the right part empty, and splitting at
/// zero leaves the left part empty; the other part is then a clone of the
/// whole sequence.
pub proof fn lemma_split_at_ends<T: Clone>(s: Seq<T>, left: Seq<T>, right: Seq<T>, at: int)
    requires
        0 <= at <= s.len(),
        is_clone_of(left, s.subrange(0, at)),
        is_clone_of(right, s.subrange(at, s.len() as int)),
    ensures
        at == s.len() ==> is_clone_of(left, s) && right == Seq::<T>::empty(),
        at == 0 ==> left == Seq::<T>::empty() && is_clone_of(right, s),
        clone_is_exact::<T>() ==> left + right == s,
{
    assert(s.subrange(0, s.len() as int) =~= s);
    if at == s.len() {
        assert(right =~= Seq::<T>::empty());
    }
    if at == 0 {
        assert(left =~= Seq::<T>::empty());
    }
    if clone_is_exact::<T>() {
        assert forall|i: int| 0 <= i < s.len() implies (left + right)[i] == s[i] by {
            if i < at {
                assert(cloned(s.subrange(0, at)[i], left[i]));
            } else {
                assert(cloned(s.subrange(at, s.len() as int)[i - at], right[i - at]));
            }
        }
        assert(left + right =~= s);
    }
}

/// A new sequence holding each distinct element of `input` once, in order
/// of first occurrence.
///
/// Whatever the element type's equality, hashing and cloning do, the
/// result holds clones of elements of `input`, in their order. Where
/// equality and hashing agree with mathematical equality and clones equal
/// what they are cloned from, the result is the first occurrences.
pub fn get_unique<T: Clone + Eq + Hash>(input: &[T]) -> (unique: Vec<T>)
    ensures
        exists|keep: Seq<bool>|
            keep.len() == input@.len() && is_clone_of(
                unique@,
                #[trigger] retained(input@, keep),
            ),
        obeys_key_model::<T>() && clone_is_exact::<T>() ==> unique@ == first_occurrences(input@),
{
    let len = input.len();
    let mut seen: HashSet<T> = HashSet::with_capacity(len);
    let mut unique: Vec<T> = Vec::with_capacity(len);
    let mut i: usize = 0;
    let ghost mut keep: Seq<bool> = Seq::empty();
    while i < len
        invariant
            len == input@.len(),
            i <= len,
            keep.len() == i,
            is_clone_of(unique@, retained(input@.subrange(0, i as int), keep)),
            obeys_key_model::<T>() && clone_is_exact::<T>() ==> {
                &&& unique@ == first_occurrences(input@.subrange(0, i as int))
                &&& forall|x: T| seen@.contains(x) <==> input@.subrange(0, i as int).contains(x)
            },
        decreases len - i,
    {
        let item = &input[i];
        let known = seen.contains(item);
        let ghost seen_before = seen@;
        let ghost unique_before = unique@;
        if !known {
            seen.insert(item.clone());
            unique.push(item.clone());
        }
        proof {
            let before = input@.subrange(0, i as int);
            let after = input@.subrange(0, i + 1);
            assert(after.drop_last() =~= before);
            assert(after.last() == *item);
            assert(keep.push(!known).drop_last() =~= keep);
            if !known {
                assert forall|k: int| 0 <= k < unique@.len() implies cloned(
                    retained(after, keep.push(!known))[k],
                    #[trigger] unique@[k],
                ) by {
                    if k < unique_before.len() {
                        assert(unique@[k] == unique_before[k]);
                    }
                }
            }
            keep = keep.push(!known);
            if obeys_key_model::<T>() && clone_is_exact::<T>() {
                assert(known == before.contains(*item));
                assert(seen@ == seen_before.insert(*item));
                assert forall|x: T| seen@.contains(x) <==> after.contains(x) by {
                    if after.contains(x) {
                        let k = choose|k: int| 0 <= k < after.len() && after[k] == x;
                        if k < i {
                            assert(before[k] == x);
                        }
                    }
                    if before.contains(x) {
                        let k = choose|k: int| 0 <= k < before.len() && before[k] == x;
                        assert(after[k] == x);
                    }
                    assert(after[i as int] == *item);
                }
            }
        }
        i += 1;
    }
    proof {
        assert(input@.subrange(0, len as int) =~= input@);
    }
    unique
}

} // verus!
