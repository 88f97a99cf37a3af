//! The adjacency rule set: which tile may sit in which direction next to
//! which other tile. Built once from declared base rules; the mirror of every
//! declared rule is inserted automatically, so the relation is symmetric under
//! `(a, d, b) -> (b, opposite(d), a)`.

use vstd::prelude::*;

use crate::side::{opposite_side, opposite_spec, Side};

verus! {

/// A single adjacency rule `(a, side, b)`: tile `b` may be placed in
/// direction `side` relative to tile `a`. Tiles are catalog indices.
pub type Link = (usize, Side, usize);

/// Whether the link `l` declares exactly the rule `(a, side, b)`.
pub open spec fn link_is(l: Link, a: int, side: Side, b: int) -> bool {
    l.0 == a && l.1 == side && l.2 == b
}

/// Whether the list `s` declares the rule `(a, side, b)`.
pub open spec fn link_in(s: Seq<Link>, a: int, side: Side, b: int) -> bool {
    exists|i: int| 0 <= i < s.len() && link_is(#[trigger] s[i], a, side, b)
}

/// Given a list of links, returns the list augmented with all the reverses:
/// `[(t1, side, t2)]` becomes `[(t1, side, t2), (t2, opposite(side), t1)]`.
pub fn with_reverse(links: Vec<Link>) -> (r: Vec<Link>)
    ensures
        r@.len() == 2 * links@.len(),
        forall|i: int| 0 <= i < links@.len() ==> r@[2 * i] == #[trigger] links@[i],
        forall|i: int|
            0 <= i < links@.len() ==> r@[2 * i + 1] == (
            (#[trigger] links@[i]).2,
            opposite_spec(links@[i].1),
            links@[i].0,
            ),
{
    let mut result: Vec<Link> = Vec::new();
    let mut j: usize = 0;
    while j < links.len()
        invariant
            j <= links@.len(),
            result@.len() == 2 * j,
            forall|i: int| 0 <= i < j ==> result@[2 * i] == #[trigger] links@[i],
            forall|i: int|
                0 <= i < j ==> result@[2 * i + 1] == (
                (#[trigger] links@[i]).2,
                opposite_spec(links@[i].1),
                links@[i].0,
                ),
        decreases links@.len() - j,
    {
        let (t1, side, t2) = links[j];
        result.push((t1, side, t2));
        result.push((t2, opposite_side(side), t1));
        j += 1;
    }
    result
}

/// The compatibility relation over the tile catalog.
pub struct RuleSet {
    pub rules: Vec<Link>,
}

impl RuleSet {
    /// Whether tile `b` is allowed in direction `side` next to tile `a`.
    pub open spec fn allows(self, a: int, side: Side, b: int) -> bool {
        link_in(self.rules@, a, side, b)
    }

    /// The relation is symmetric under `(a, d, b) -> (b, opposite(d), a)`.
    pub open spec fn symmetric(self) -> bool {
        forall|a: int, side: Side, b: int|
            #[trigger] self.allows(a, side, b) ==> self.allows(b, opposite_spec(side), a)
    }

    /// Builds the rule set from the declared base rules. The mirror of every
    /// declared rule is derived automatically, so callers need not hand-author
    /// both directions.
    pub fn new(base: Vec<Link>) -> (r: RuleSet)
        ensures
            forall|a: int, side: Side, b: int|
                #[trigger] r.allows(a, side, b) <==> (link_in(base@, a, side, b) || link_in(
                    base@,
                    b,
                    opposite_spec(side),
                    a,
                )),
            r.symmetric(),
    {
        let ghost base_view = base@;
        let rules = with_reverse(base);
        let r = RuleSet { rules };
        proof {
            assert forall|a: int, side: Side, b: int| #[trigger] r.allows(a, side, b) implies (
            link_in(base_view, a, side, b) || link_in(base_view, b, opposite_spec(side), a)) by {
                let i = choose|i: int|
                    0 <= i < r.rules@.len() && link_is(#[trigger] r.rules@[i], a, side, b);
                let k = i / 2;
                assert(0 <= k < base_view.len());
                if i % 2 == 0 {
                    assert(i == 2 * k);
                    assert(r.rules@[2 * k] == base_view[k]);
                    assert(link_is(base_view[k], a, side, b));
                } else {
                    assert(i == 2 * k + 1);
                    assert(r.rules@[2 * k + 1] == (
                        base_view[k].2,
                        opposite_spec(base_view[k].1),
                        base_view[k].0,
                    ));
                    assert(base_view[k].2 == a);
                    assert(opposite_spec(base_view[k].1) == side);
                    assert(base_view[k].0 == b);
                    assert(base_view[k].1 == opposite_spec(side));
                    assert(link_is(base_view[k], b, opposite_spec(side), a));
                }
            }
            assert forall|a: int, side: Side, b: int|
                (link_in(base_view, a, side, b) || link_in(
                    base_view,
                    b,
                    opposite_spec(side),
                    a,
                )) implies #[trigger] r.allows(a, side, b) by {
                if link_in(base_view, a, side, b) {
                    let k = choose|k: int|
                        0 <= k < base_view.len() && link_is(#[trigger] base_view[k], a, side, b);
                    assert(r.rules@[2 * k] == base_view[k]);
                    assert(link_is(r.rules@[2 * k], a, side, b));
                } else {
                    let k = choose|k: int|
                        0 <= k < base_view.len() && link_is(
                            #[trigger] base_view[k],
                            b,
                            opposite_spec(side),
                            a,
                        );
                    assert(r.rules@[2 * k + 1] == (
                        base_view[k].2,
                        opposite_spec(base_view[k].1),
                        base_view[k].0,
                    ));
                    assert(opposite_spec(base_view[k].1) == opposite_spec(opposite_spec(side)));
                    assert(opposite_spec(opposite_spec(side)) == side);
                    assert(link_is(r.rules@[2 * k + 1], a, side, b));
                }
            }
            assert forall|a: int, side: Side, b: int| #[trigger] r.allows(a, side, b) implies
            r.allows(b, opposite_spec(side), a) by {
                assert(opposite_spec(opposite_spec(side)) == side);
            }
        }
        r
    }

    /// Answers whether tile `b` is allowed in direction `side` next to tile
    /// `a`. Pure and total: an undeclared pair is simply incompatible.
    pub fn compatible(&self, a: usize, side: Side, b: usize) -> (r: bool)
        ensures
            r == self.allows(a as int, side, b as int),
    {
        let mut j: usize = 0;
        while j < self.rules.len()
            invariant
                j <= self.rules@.len(),
                forall|i: int| 0 <= i < j ==> !link_is(#[trigger] self.rules@[i], a as int, side, b as int),
            decreases self.rules@.len() - j,
        {
            let (ra, rs, rb) = self.rules[j];
            if ra == a && rs == side && rb == b {
                return true;
            }
            j += 1;
        }
        false
    }
}

/// Mirror symmetry: for every rule `(a, d, b)` accepted by the rule set
/// builder, `(b, opposite(d), a)` is accepted as well.
pub proof fn lemma_mirror(rs: RuleSet, a: int, side: Side, b: int)
    requires
        rs.symmetric(),
        rs.allows(a, side, b),
    ensures
        rs.allows(b, opposite_spec(side), a),
{
}

} // verus!
