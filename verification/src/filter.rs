//! Choosing events by the bits of their codes.
use rayon::iter::{IntoParallelRefIterator, ParallelIterator};
use vstd::prelude::*;
use crate::node::LedgerNode;

verus! {

/// Fixes some of the bits of an event code.
#[derive(Clone, Copy, PartialEq, Eq, Structural, Debug)]
pub struct BitsPattern {
    /// The bits that are fixed.
    pub mask: u32,
    /// What they are fixed to.
    pub bits: u32,
}

/// A property of event codes.
#[derive(Clone, Copy, PartialEq, Eq, Structural, Debug)]
pub enum BitsProperty {
    /// The code has the bits that the pattern asks for.
    Match(BitsPattern),
    /// The code does not have the bits that the pattern asks for.
    NoMatch(BitsPattern),
}

impl BitsPattern {
    pub open spec fn fits(self, event: u32) -> bool {
        event & self.mask == self.bits
    }
}

impl BitsProperty {
    pub open spec fn holds(self, event: u32) -> bool {
        match self {
            BitsProperty::Match(pattern) => pattern.fits(event),
            BitsProperty::NoMatch(pattern) => !pattern.fits(event),
        }
    }

    pub fn matches(&self, event: u32) -> (holds: bool)
        ensures
            holds == self.holds(event),
    {
        match *self {
            BitsProperty::Match(pattern) => event & pattern.mask == pattern.bits,
            BitsProperty::NoMatch(pattern) => event & pattern.mask != pattern.bits,
        }
    }
}

/// The nodes of the pairs whose event has the property, in order.
pub open spec fn matching(pairs: Seq<(LedgerNode, u32)>, property: BitsProperty) -> Seq<
    LedgerNode,
> {
    pairs.filter(|pair: (LedgerNode, u32)| property.holds(pair.1)).map_values(
        |pair: (LedgerNode, u32)| pair.0,
    )
}

/// Calls `filter`, `map` and `collect` of rayon's parallel iterators: the pairs are tested on
/// several threads, and the nodes of those that pass are collected in the order of the pairs.
#[verifier::external_body]
pub(crate) fn par_matching(pairs: &Vec<(LedgerNode, u32)>, property: &BitsProperty) -> (nodes: Vec<
    LedgerNode,
>)
    ensures
        nodes@ == matching(pairs@, *property),
{
    pairs.par_iter().filter(|pair| property.matches(pair.1)).map(|pair| pair.0).collect()
}

proof fn lemma_same_bits(x: u32, y: u32)
    requires
        forall|i: u32| i < 32 ==> #[trigger] (x >> i) & 1u32 == (y >> i) & 1u32,
    ensures
        x == y,
{
    assert((x >> 0u32) & 1u32 == (y >> 0u32) & 1u32);
    assert((x >> 1u32) & 1u32 == (y >> 1u32) & 1u32);
    assert((x >> 2u32) & 1u32 == (y >> 2u32) & 1u32);
    assert((x >> 3u32) & 1u32 == (y >> 3u32) & 1u32);
    assert((x >> 4u32) & 1u32 == (y >> 4u32) & 1u32);
    assert((x >> 5u32) & 1u32 == (y >> 5u32) & 1u32);
    assert((x >> 6u32) & 1u32 == (y >> 6u32) & 1u32);
    assert((x >> 7u32) & 1u32 == (y >> 7u32) & 1u32);
    assert((x >> 8u32) & 1u32 == (y >> 8u32) & 1u32);
    assert((x >> 9u32) & 1u32 == (y >> 9u32) & 1u32);
    assert((x >> 10u32) & 1u32 == (y >> 10u32) & 1u32);
    assert((x >> 11u32) & 1u32 == (y >> 11u32) & 1u32);
    assert((x >> 12u32) & 1u32 == (y >> 12u32) & 1u32);
    assert((x >> 13u32) & 1u32 == (y >> 13u32) & 1u32);
    assert((x >> 14u32) & 1u32 == (y >> 14u32) & 1u32);
    assert((x >> 15u32) & 1u32 == (y >> 15u32) & 1u32);
    assert((x >> 16u32) & 1u32 == (y >> 16u32) & 1u32);
    assert((x >> 17u32) & 1u32 == (y >> 17u32) & 1u32);
    assert((x >> 18u32) & 1u32 == (y >> 18u32) & 1u32);
    assert((x >> 19u32) & 1u32 == (y >> 19u32) & 1u32);
    assert((x >> 20u32) & 1u32 == (y >> 20u32) & 1u32);
    assert((x >> 21u32) & 1u32 == (y >> 21u32) & 1u32);
    assert((x >> 22u32) & 1u32 == (y >> 22u32) & 1u32);
    assert((x >> 23u32) & 1u32 == (y >> 23u32) & 1u32);
    assert((x >> 24u32) & 1u32 == (y >> 24u32) & 1u32);
    assert((x >> 25u32) & 1u32 == (y >> 25u32) & 1u32);
    assert((x >> 26u32) & 1u32 == (y >> 26u32) & 1u32);
    assert((x >> 27u32) & 1u32 == (y >> 27u32) & 1u32);
    assert((x >> 28u32) & 1u32 == (y >> 28u32) & 1u32);
    assert((x >> 29u32) & 1u32 == (y >> 29u32) & 1u32);
    assert((x >> 30u32) & 1u32 == (y >> 30u32) & 1u32);
    assert((x >> 31u32) & 1u32 == (y >> 31u32) & 1u32);
    assert(x == y) by (bit_vector)
        requires
            (x >> 0u32) & 1u32 == (y >> 0u32) & 1u32,
            (x >> 1u32) & 1u32 == (y >> 1u32) & 1u32,
            (x >> 2u32) & 1u32 == (y >> 2u32) & 1u32,
            (x >> 3u32) & 1u32 == (y >> 3u32) & 1u32,
            (x >> 4u32) & 1u32 == (y >> 4u32) & 1u32,
            (x >> 5u32) & 1u32 == (y >> 5u32) & 1u32,
            (x >> 6u32) & 1u32 == (y >> 6u32) & 1u32,
            (x >> 7u32) & 1u32 == (y >> 7u32) & 1u32,
            (x >> 8u32) & 1u32 == (y >> 8u32) & 1u32,
            (x >> 9u32) & 1u32 == (y >> 9u32) & 1u32,
            (x >> 10u32) & 1u32 == (y >> 10u32) & 1u32,
            (x >> 11u32) & 1u32 == (y >> 11u32) & 1u32,
            (x >> 12u32) & 1u32 == (y >> 12u32) & 1u32,
            (x >> 13u32) & 1u32 == (y >> 13u32) & 1u32,
            (x >> 14u32) & 1u32 == (y >> 14u32) & 1u32,
            (x >> 15u32) & 1u32 == (y >> 15u32) & 1u32,
            (x >> 16u32) & 1u32 == (y >> 16u32) & 1u32,
            (x >> 17u32) & 1u32 == (y >> 17u32) & 1u32,
            (x >> 18u32) & 1u32 == (y >> 18u32) & 1u32,
            (x >> 19u32) & 1u32 == (y >> 19u32) & 1u32,
            (x >> 20u32) & 1u32 == (y >> 20u32) & 1u32,
            (x >> 21u32) & 1u32 == (y >> 21u32) & 1u32,
            (x >> 22u32) & 1u32 == (y >> 22u32) & 1u32,
            (x >> 23u32) & 1u32 == (y >> 23u32) & 1u32,
            (x >> 24u32) & 1u32 == (y >> 24u32) & 1u32,
            (x >> 25u32) & 1u32 == (y >> 25u32) & 1u32,
            (x >> 26u32) & 1u32 == (y >> 26u32) & 1u32,
            (x >> 27u32) & 1u32 == (y >> 27u32) & 1u32,
            (x >> 28u32) & 1u32 == (y >> 28u32) & 1u32,
            (x >> 29u32) & 1u32 == (y >> 29u32) & 1u32,
            (x >> 30u32) & 1u32 == (y >> 30u32) & 1u32,
            (x >> 31u32) & 1u32 == (y >> 31u32) & 1u32,
    ;
}

/// A code fits a pattern exactly where every bit of the mask has in the code the value, 1 or 0,
/// that it has in the bits of the pattern. Bits outside the mask do not matter in the code; in
/// the pattern they have to be 0, else no code fits.
pub proof fn pattern_fixes_bits(pattern: BitsPattern, event: u32)
    ensures
        pattern.fits(event) <==> forall|i: u32|
            i < 32 ==> if #[trigger] (pattern.mask >> i) & 1u32 == 1u32 {
                (event >> i) & 1u32 == (pattern.bits >> i) & 1u32
            } else {
                (pattern.bits >> i) & 1u32 == 0u32
            },
{
    let mask = pattern.mask;
    let bits = pattern.bits;
    let cut = event & mask;
    assert forall|i: u32| i < 32 implies #[trigger] (cut >> i) & 1u32 == if (mask >> i) & 1u32
        == 1u32 {
        (event >> i) & 1u32
    } else {
        0u32
    } by {
        assert(i < 32 ==> ((event & mask) >> i) & 1u32 == if (mask >> i) & 1u32 == 1u32 {
            (event >> i) & 1u32
        } else {
            0u32
        }) by (bit_vector);
    }
    if forall|i: u32|
        i < 32 ==> if #[trigger] (mask >> i) & 1u32 == 1u32 {
            (event >> i) & 1u32 == (bits >> i) & 1u32
        } else {
            (bits >> i) & 1u32 == 0u32
        } {
        assert forall|i: u32| i < 32 implies #[trigger] (cut >> i) & 1u32 == (bits >> i)
            & 1u32 by {
            assert((mask >> i) & 1u32 == 1u32 || (mask >> i) & 1u32 != 1u32);
        }
        lemma_same_bits(cut, bits);
    }
    if pattern.fits(event) {
        assert forall|i: u32| i < 32 implies if #[trigger] (mask >> i) & 1u32 == 1u32 {
            (event >> i) & 1u32 == (bits >> i) & 1u32
        } else {
            (bits >> i) & 1u32 == 0u32
        } by {
            assert((cut >> i) & 1u32 == (bits >> i) & 1u32);
        }
    }
}

/// A pattern that fixes all bits fits just the one code that it spells out; one that fixes none
/// fits every code.
pub proof fn full_pattern_fits_one_code(bits: u32, event: u32)
    ensures
        (BitsPattern { mask: u32::MAX, bits }).fits(event) <==> event == bits,
        (BitsPattern { mask: 0, bits: 0 }).fits(event),
{
    assert(event & u32::MAX == event) by (bit_vector);
    assert(event & 0u32 == 0u32) by (bit_vector);
}

/// Codes that agree in the bits of the mask fit a pattern alike.
pub proof fn pattern_ignores_other_bits(pattern: BitsPattern, a: u32, b: u32)
    requires
        a & pattern.mask == b & pattern.mask,
    ensures
        pattern.fits(a) == pattern.fits(b),
{
}

/// Of a pattern and its negation just one holds: the first where the code fits the pattern.
pub proof fn property_or_negation(pattern: BitsPattern, event: u32)
    ensures
        BitsProperty::Match(pattern).holds(event) == pattern.fits(event),
        BitsProperty::NoMatch(pattern).holds(event) != pattern.fits(event),
{
}

/// What is chosen from a list is what is chosen from its parts; a single node is chosen where its
/// event has the property.
pub proof fn matching_of_parts(
    a: Seq<(LedgerNode, u32)>,
    b: Seq<(LedgerNode, u32)>,
    property: BitsProperty,
    n: LedgerNode,
    event: u32,
)
    ensures
        matching(a + b, property) == matching(a, property) + matching(b, property),
        matching(seq![(n, event)], property) == (if property.holds(event) {
            seq![n]
        } else {
            Seq::empty()
        }),
        matching(Seq::empty(), property) == Seq::<LedgerNode>::empty(),
    decreases b.len(),
{
    reveal(Seq::filter);
    let one = seq![(n, event)];
    let test = |pair: (LedgerNode, u32)| property.holds(pair.1);
    assert(one.drop_last() =~= Seq::<(LedgerNode, u32)>::empty());
    assert(one.drop_last().filter(test) =~= Seq::<(LedgerNode, u32)>::empty());
    assert(matching(Seq::empty(), property) =~= Seq::<LedgerNode>::empty());
    assert(matching(one, property) =~= (if property.holds(event) {
        seq![n]
    } else {
        Seq::empty()
    }));
    if b.len() == 0 {
        assert(a + b =~= a);
        assert(matching(a, property) + matching(b, property) =~= matching(a, property));
    } else {
        matching_of_parts(a, b.drop_last(), property, n, event);
        assert((a + b).drop_last() =~= a + b.drop_last());
        assert((a + b).last() == b.last());
        assert(matching(a + b, property) =~= matching(a, property) + matching(b, property));
    }
}

} // verus!
