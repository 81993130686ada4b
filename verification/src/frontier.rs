//! Frontiers of `u64` timestamps, kept in timely's `Antichain`.
//!
//! Verus cannot look inside an `Antichain`, so the set of timestamps that one
//! holds is given a name here, and each method that the sink calls gets a
//! small wrapper whose contract is stated over that set. Those contracts are
//! taken on trust from timely's and differential-dataflow's sources; all else
//! in this module is proved.

use differential_dataflow::lattice::Lattice;
use timely::progress::Antichain;
use vstd::prelude::*;

verus! {

/// timely's `Antichain`, declared so that it can stand in signatures and fields.
#[verifier::external_type_specification]
#[verifier::external_body]
#[verifier::reject_recursive_types(T)]
pub struct ExAntichain<T>(Antichain<T>);

/// The timestamps that a frontier holds.
pub uninterp spec fn frontier_elements(frontier: Antichain<u64>) -> Set<u64>;

/// Some element of `elements` is at or before `time`.
pub open spec fn some_at_or_before(elements: Set<u64>, time: u64) -> bool {
    exists|e: u64| #[trigger] elements.contains(e) && e <= time
}

/// Some element of `elements` is strictly before `time`.
pub open spec fn some_before(elements: Set<u64>, time: u64) -> bool {
    exists|e: u64| #[trigger] elements.contains(e) && e < time
}

/// The elements of `elements` that no other element is strictly below.
pub open spec fn minimal_elements(elements: Set<u64>) -> Set<u64> {
    Set::new(|e: u64| elements.contains(e) && forall|o: u64| elements.contains(o) ==> e <= o)
}

/// `Antichain::new`: a frontier that holds no timestamp.
#[verifier::external_body]
pub(crate) fn empty_frontier() -> (frontier: Antichain<u64>)
    ensures
        frontier_elements(frontier) == Set::<u64>::empty(),
{
    Antichain::new()
}

/// `Antichain::less_equal`: whether some element of the frontier is at or
/// before `time`.
#[verifier::external_body]
pub(crate) fn frontier_less_equal(frontier: &Antichain<u64>, time: u64) -> (found: bool)
    ensures
        found == some_at_or_before(frontier_elements(*frontier), time),
{
    frontier.less_equal(&time)
}

/// `Antichain::less_than`: whether some element of the frontier is strictly
/// before `time`.
#[verifier::external_body]
pub(crate) fn frontier_less_than(frontier: &Antichain<u64>, time: u64) -> (found: bool)
    ensures
        found == some_before(frontier_elements(*frontier), time),
{
    frontier.less_than(&time)
}

/// `Antichain::clear`: afterwards the frontier holds no timestamp.
#[verifier::external_body]
pub(crate) fn frontier_clear(frontier: &mut Antichain<u64>)
    ensures
        frontier_elements(*final(frontier)) == Set::<u64>::empty(),
{
    frontier.clear()
}

/// `Antichain::insert`: where some element is already at or before `time`
/// nothing changes and `false` comes back; otherwise the elements at or after
/// `time` leave, `time` enters, and `true` comes back.
#[verifier::external_body]
pub(crate) fn frontier_insert(frontier: &mut Antichain<u64>, time: u64) -> (added: bool)
    ensures
        added == !some_at_or_before(frontier_elements(*old(frontier)), time),
        !added ==> frontier_elements(*final(frontier)) == frontier_elements(*old(frontier)),
        added ==> frontier_elements(*final(frontier)) == frontier_elements(*old(frontier)).filter(
            |e: u64| e < time,
        ).insert(time),
{
    frontier.insert(time)
}

/// `Lattice::meet_assign` on antichains: every element of both frontiers is
/// inserted into a fresh antichain, which leaves the minimal elements of
/// their union.
#[verifier::external_body]
pub(crate) fn frontier_meet_assign(frontier: &mut Antichain<u64>, other: &Antichain<u64>)
    ensures
        frontier_elements(*final(frontier)) == minimal_elements(
            frontier_elements(*old(frontier)).union(frontier_elements(*other)),
        ),
{
    frontier.meet_assign(other)
}

/// The timestamps held by any of the frontiers.
pub open spec fn all_elements(frontiers: Seq<Antichain<u64>>) -> Set<u64> {
    Set::new(
        |e: u64|
            exists|i: int|
                0 <= i < frontiers.len() && frontier_elements(#[trigger] frontiers[i]).contains(e),
    )
}

/// The elements of the meet of the frontiers: the least timestamps that any
/// of them holds.
pub open spec fn meet_elements(frontiers: Seq<Antichain<u64>>) -> Set<u64> {
    minimal_elements(all_elements(frontiers))
}

/// A set of timestamps that holds `witness` has a least element.
pub proof fn lemma_least_element(elements: Set<u64>, witness: u64)
    requires
        elements.contains(witness),
    ensures
        exists|least: u64| #[trigger]
            elements.contains(least) && least <= witness && forall|o: u64|
                elements.contains(o) ==> least <= o,
    decreases witness,
{
    if exists|below: u64| elements.contains(below) && below < witness {
        let below = choose|below: u64| elements.contains(below) && below < witness;
        lemma_least_element(elements, below);
    } else {
        assert(elements.contains(witness) && witness <= witness && forall|o: u64|
            elements.contains(o) ==> witness <= o);
    }
}

/// Cutting a set down to its minimal elements does not change which times
/// have an element at or before them.
pub proof fn lemma_minimal_reaches_the_same(elements: Set<u64>, time: u64)
    ensures
        some_at_or_before(minimal_elements(elements), time) <==> some_at_or_before(elements, time),
{
    if some_at_or_before(elements, time) {
        let e = choose|e: u64| #[trigger] elements.contains(e) && e <= time;
        lemma_least_element(elements, e);
        let least = choose|least: u64| #[trigger]
            elements.contains(least) && least <= e && forall|o: u64|
                elements.contains(o) ==> least <= o;
        assert(minimal_elements(elements).contains(least));
    }
    if some_at_or_before(minimal_elements(elements), time) {
        let e = choose|e: u64| #[trigger] minimal_elements(elements).contains(e) && e <= time;
        assert(elements.contains(e));
    }
}

/// Taking the minimal elements of one part first changes nothing.
proof fn lemma_minimal_absorbs(part: Set<u64>, rest: Set<u64>)
    ensures
        minimal_elements(minimal_elements(part).union(rest)) == minimal_elements(part.union(rest)),
{
    let left = minimal_elements(minimal_elements(part).union(rest));
    let right = minimal_elements(part.union(rest));
    assert forall|x: u64| left.contains(x) <==> right.contains(x) by {
        if left.contains(x) {
            assert(minimal_elements(part).union(rest).contains(x));
            assert(part.union(rest).contains(x));
            assert forall|o: u64| part.union(rest).contains(o) implies x <= o by {
                if part.contains(o) {
                    lemma_least_element(part, o);
                    let least = choose|least: u64| #[trigger]
                        part.contains(least) && least <= o && forall|p: u64|
                            part.contains(p) ==> least <= p;
                    assert(minimal_elements(part).contains(least));
                    assert(minimal_elements(part).union(rest).contains(least));
                } else {
                    assert(rest.contains(o));
                    assert(minimal_elements(part).union(rest).contains(o));
                }
            }
            assert(right.contains(x));
        }
        if right.contains(x) {
            assert(part.union(rest).contains(x));
            if part.contains(x) {
                assert forall|p: u64| part.contains(p) implies x <= p by {
                    assert(part.union(rest).contains(p));
                }
                assert(minimal_elements(part).contains(x));
            }
            assert(minimal_elements(part).union(rest).contains(x));
            assert forall|o: u64| minimal_elements(part).union(rest).contains(o) implies x
                <= o by {
                assert(part.union(rest).contains(o));
            }
            assert(left.contains(x));
        }
    }
    assert(left =~= right);
}

/// The meet of the given frontiers: what `meet_assign` leaves when it is
/// handed each of them in turn, starting from a frontier that holds nothing.
pub fn meet_of(frontiers: &Vec<Antichain<u64>>) -> (meet: Antichain<u64>)
    ensures
        frontier_elements(meet) == meet_elements(frontiers@),
        forall|t: u64|
            some_at_or_before(frontier_elements(meet), t) <==> some_at_or_before(
                all_elements(frontiers@),
                t,
            ),
{
    let mut meet = empty_frontier();
    let mut i: usize = 0;
    assert(frontier_elements(meet) =~= meet_elements(frontiers@.take(0)));
    while i < frontiers.len()
        invariant
            i <= frontiers.len(),
            frontier_elements(meet) == meet_elements(frontiers@.take(i as int)),
        decreases frontiers.len() - i,
    {
        let ghost before = all_elements(frontiers@.take(i as int));
        frontier_meet_assign(&mut meet, &frontiers[i]);
        proof {
            let next = frontier_elements(frontiers@[i as int]);
            lemma_minimal_absorbs(before, next);
            assert(before.union(next) =~= all_elements(frontiers@.take(i + 1))) by {
                assert forall|e: u64|
                    before.union(next).contains(e) <==> all_elements(
                        frontiers@.take(i + 1),
                    ).contains(e) by {
                    if before.contains(e) {
                        let k = choose|k: int|
                            0 <= k < i && frontier_elements(
                                #[trigger] frontiers@.take(i as int)[k],
                            ).contains(e);
                        assert(frontiers@.take(i + 1)[k] == frontiers@.take(i as int)[k]);
                    }
                    if next.contains(e) {
                        assert(frontiers@.take(i + 1)[i as int] == frontiers@[i as int]);
                    }
                    if all_elements(frontiers@.take(i + 1)).contains(e) {
                        let k = choose|k: int|
                            0 <= k < i + 1 && frontier_elements(
                                #[trigger] frontiers@.take(i + 1)[k],
                            ).contains(e);
                        if k < i {
                            assert(frontiers@.take(i as int)[k] == frontiers@.take(i + 1)[k]);
                        }
                    }
                }
            }
        }
        i = i + 1;
    }
    proof {
        assert(frontiers@.take(i as int) =~= frontiers@);
        assert forall|t: u64|
            some_at_or_before(frontier_elements(meet), t) <==> some_at_or_before(
                all_elements(frontiers@),
                t,
            ) by {
            lemma_minimal_reaches_the_same(all_elements(frontiers@), t);
        }
    }
    meet
}

} // verus!
