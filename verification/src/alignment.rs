//! Alignment edges for one sentence pair, and their text form.

use crate::decimal::append_decimal;
use crate::decimal::spec_decimal;
use vstd::prelude::*;
use vstd::string::StringExecFns;

verus! {

/// Alignment Position.
#[derive(Clone, Copy, Debug, Eq, PartialEq, Structural)]
pub struct Position {
    /// Value of position.
    pub id: u32,
}

impl Position {
    /// Creates a new Position object.
    pub fn new(id: u32) -> (r: Self)
        ensures
            r.id == id,
    {
        Self { id }
    }
}

/// Alignment edge: one target position aligned to one source position.
#[derive(Clone, Copy, Debug, Eq, PartialEq, Structural)]
pub struct Edge {
    /// Source word position (0-origin).
    pub source: Position,

    /// Target word position (0-origin).
    pub target: Position,
}

impl Edge {
    /// Creates a new Edge object.
    pub fn new(source: Position, target: Position) -> (r: Self)
        ensures
            r.source == source,
            r.target == target,
    {
        Self { source, target }
    }

    /// Text form of an edge: `source-target` in decimal.
    pub open spec fn spec_text(self) -> Seq<char> {
        spec_decimal(self.source.id as nat) + seq!['-'] + spec_decimal(self.target.id as nat)
    }

    /// Renders the edge as `source-target`.
    pub fn to_text(&self) -> (r: String)
        ensures
            r@ == self.spec_text(),
    {
        let mut s = String::new();
        append_decimal(&mut s, self.source.id as u64);
        s.append("-");
        append_decimal(&mut s, self.target.id as u64);
        proof {
            reveal_strlit("-");
            assert("-"@ =~= seq!['-']);
            assert(s@ =~= self.spec_text());
        }
        s
    }
}

/// Text form of a whole alignment: its edges, space-separated, in order.
pub open spec fn spec_alignment_text(edges: Seq<Edge>) -> Seq<char>
    decreases edges.len(),
{
    if edges.len() == 0 {
        Seq::empty()
    } else if edges.len() == 1 {
        edges[0].spec_text()
    } else {
        spec_alignment_text(edges.drop_last()) + seq![' '] + edges.last().spec_text()
    }
}

/// Alignment for a sentence pair.
pub struct Alignment {
    /// Alignment edges.
    pub edges: Vec<Edge>,
}

impl Alignment {
    /// Creates a new Alignment.
    pub fn new(edges: Vec<Edge>) -> (r: Self)
        ensures
            r.edges@ == edges@,
    {
        Self { edges }
    }

    /// Renders the alignment as one output line (without the newline): its
    /// edges in order, space-separated; empty when there is no edge.
    pub fn to_text(&self) -> (r: String)
        ensures
            r@ == spec_alignment_text(self.edges@),
    {
        let mut s = String::new();
        let n = self.edges.len();
        for i in 0..n
            invariant
                n == self.edges.len(),
                s@ == spec_alignment_text(self.edges@.take(i as int)),
        {
            if i > 0 {
                s.append(" ");
            }
            let t = self.edges[i].to_text();
            s.append(t.as_str());
            proof {
                reveal_strlit(" ");
                assert(" "@ =~= seq![' ']);
                let p = self.edges@.take(i + 1);
                assert(p.drop_last() =~= self.edges@.take(i as int));
                assert(p.last() == self.edges@[i as int]);
                if i == 0 {
                    assert(s@ =~= spec_alignment_text(p));
                } else {
                    assert(s@ =~= spec_alignment_text(p));
                }
            }
        }
        proof {
            assert(self.edges@.take(n as int) =~= self.edges@);
        }
        s
    }
}

} // verus!
