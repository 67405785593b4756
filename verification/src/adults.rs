//! The adult filter: keeps, in their original order, exactly the persons
//! that are adults.

use vstd::prelude::*;

use crate::person::Person;

verus! {

/// The subsequence of `s`, in order, of the persons aged eighteen or more.
pub open spec fn adults_only(s: Seq<Person>) -> Seq<Person>
    decreases s.len(),
{
    if s.len() == 0 {
        Seq::empty()
    } else if s[0]@.age >= 18 {
        seq![s[0]] + adults_only(s.skip(1))
    } else {
        adults_only(s.skip(1))
    }
}

/// Returns only the adults among `people`, keeping their order; no element
/// is duplicated, dropped, or reordered beyond the removal of minors.
pub fn filter_adults(people: Vec<Person>) -> (r: Vec<Person>)
    ensures
        r@ == adults_only(people@),
{
    let ghost orig: Seq<Person> = people@;
    let mut rest = people;
    let mut adults: Vec<Person> = Vec::new();
    proof {
        assert(adults@ + adults_only(rest@) =~= adults_only(orig));
    }
    while rest.len() > 0
        invariant
            adults_only(orig) == adults@ + adults_only(rest@),
        decreases rest.len(),
    {
        let ghost before: Seq<Person> = rest@;
        let p = rest.remove(0);
        proof {
            assert(rest@ =~= before.skip(1));
        }
        if p.is_adult() {
            let ghost prev: Seq<Person> = adults@;
            adults.push(p);
            proof {
                assert(prev + (seq![p] + adults_only(rest@)) =~= adults@ + adults_only(rest@));
            }
        }
    }
    proof {
        assert(adults_only(rest@) =~= Seq::<Person>::empty());
        assert(adults@ + adults_only(rest@) =~= adults@);
    }
    adults
}

} // verus!
