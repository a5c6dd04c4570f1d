//! Filled triangle descriptor and its vertex ordering.

use vstd::prelude::*;

verus! {

use vstd::multiset::Multiset;
use vstd::multiset::lemma_multiset_empty_len;
use vstd::seq_lib::to_multiset_build;
use crate::constants::Colors;

/// A filled triangle: three signed vertices and a packed color. The
/// vertices carry no ordering invariant until `sort` re-establishes
/// `y1 <= y2 <= y3`.
#[derive(Debug, Clone, Copy, PartialEq, Eq, Structural)]
pub struct GraphikTriangle {
    pub x1: i32,
    pub y1: i32,
    pub x2: i32,
    pub y2: i32,
    pub x3: i32,
    pub y3: i32,
    pub color: u32,
}

/// The triangle's vertices as coordinate pairs, in field order.
pub open spec fn vertices(t: GraphikTriangle) -> Seq<(int, int)> {
    seq![
        (t.x1 as int, t.y1 as int),
        (t.x2 as int, t.y2 as int),
        (t.x3 as int, t.y3 as int),
    ]
}

/// The result of `sort`: three compare-and-swap passes that order the
/// vertices by ascending `y`, each swap moving a `y` together with its
/// paired `x`.
pub open spec fn sort_spec(t: GraphikTriangle) -> GraphikTriangle {
    let a = if t.y1 > t.y2 {
        GraphikTriangle { x1: t.x2, y1: t.y2, x2: t.x1, y2: t.y1, ..t }
    } else {
        t
    };
    let b = if a.y2 > a.y3 {
        GraphikTriangle { x2: a.x3, y2: a.y3, x3: a.x2, y3: a.y2, ..a }
    } else {
        a
    };
    if b.y1 > b.y2 {
        GraphikTriangle { x1: b.x2, y1: b.y2, x2: b.x1, y2: b.y1, ..b }
    } else {
        b
    }
}

impl GraphikTriangle {
    /// Whether the vertices are ordered by ascending `y`.
    pub open spec fn sorted(self) -> bool {
        self.y1 <= self.y2 <= self.y3
    }

    pub fn new() -> (r: Self)
        ensures
            r == (GraphikTriangle {
                x1: 0,
                y1: 0,
                x2: 0,
                y2: 0,
                x3: 0,
                y3: 0,
                color: Colors::Background.spec_value(),
            }),
    {
        Self { x1: 0, y1: 0, x2: 0, y2: 0, x3: 0, y3: 0, color: Colors::Background.value() }
    }

    pub fn first(&mut self, x: i32, y: i32) -> (r: Self)
        ensures
            *final(self) == (GraphikTriangle { x1: x, y1: y, ..*old(self) }),
            r == *final(self),
    {
        self.x1 = x;
        self.y1 = y;
        *self
    }

    pub fn second(&mut self, x: i32, y: i32) -> (r: Self)
        ensures
            *final(self) == (GraphikTriangle { x2: x, y2: y, ..*old(self) }),
            r == *final(self),
    {
        self.x2 = x;
        self.y2 = y;
        *self
    }

    pub fn third(&mut self, x: i32, y: i32) -> (r: Self)
        ensures
            *final(self) == (GraphikTriangle { x3: x, y3: y, ..*old(self) }),
            r == *final(self),
    {
        self.x3 = x;
        self.y3 = y;
        *self
    }

    pub fn color(&mut self, color: u32) -> (r: Self)
        ensures
            *final(self) == (GraphikTriangle { color, ..*old(self) }),
            r == *final(self),
    {
        self.color = color;
        *self
    }

    /// Orders the vertices by ascending `y`, swapping each `y` together
    /// with its paired `x`.
    pub fn sort(&mut self) -> (r: Self)
        ensures
            *final(self) == sort_spec(*old(self)),
            final(self).sorted(),
            r == *final(self),
    {
        if self.y1 > self.y2 {
            let tx = self.x1;
            let ty = self.y1;
            self.x1 = self.x2;
            self.y1 = self.y2;
            self.x2 = tx;
            self.y2 = ty;
        }
        if self.y2 > self.y3 {
            let tx = self.x2;
            let ty = self.y2;
            self.x2 = self.x3;
            self.y2 = self.y3;
            self.x3 = tx;
            self.y3 = ty;
        }
        if self.y1 > self.y2 {
            let tx = self.x1;
            let ty = self.y1;
            self.x1 = self.x2;
            self.y1 = self.y2;
            self.x2 = tx;
            self.y2 = ty;
        }
        *self
    }
}

/// The vertex sequence's multiset is the three vertices, in any order.
proof fn lemma_vertices_multiset(t: GraphikTriangle)
    ensures
        vertices(t).to_multiset() == Multiset::empty()
            .insert((t.x1 as int, t.y1 as int))
            .insert((t.x2 as int, t.y2 as int))
            .insert((t.x3 as int, t.y3 as int)),
{
    let v1 = (t.x1 as int, t.y1 as int);
    let v2 = (t.x2 as int, t.y2 as int);
    let v3 = (t.x3 as int, t.y3 as int);
    let s0 = Seq::<(int, int)>::empty();
    s0.to_multiset_ensures();
    lemma_multiset_empty_len(s0.to_multiset());
    to_multiset_build(s0, v1);
    to_multiset_build(s0.push(v1), v2);
    to_multiset_build(s0.push(v1).push(v2), v3);
    assert(vertices(t) =~= s0.push(v1).push(v2).push(v3));
    assert(vertices(t).to_multiset() =~= Multiset::empty().insert(v1).insert(v2).insert(v3));
}

/// Sorting orders the vertices by ascending `y` and keeps the color.
pub proof fn lemma_sort_sorted(t: GraphikTriangle)
    ensures
        sort_spec(t).sorted(),
        sort_spec(t).color == t.color,
{
}

/// Sorting is idempotent: sorting an already sorted triangle changes
/// nothing, so `sort_spec(sort_spec(t)) == sort_spec(t)`.
pub proof fn lemma_sort_idempotent(t: GraphikTriangle)
    ensures
        sort_spec(sort_spec(t)) == sort_spec(t),
        t.sorted() ==> sort_spec(t) == t,
{
}

/// Sorting permutes the vertices: each `x` stays paired with its original
/// `y`, and no vertex is gained or lost.
pub proof fn lemma_sort_permutes(t: GraphikTriangle)
    ensures
        vertices(sort_spec(t)).to_multiset() == vertices(t).to_multiset(),
{
    lemma_vertices_multiset(t);
    lemma_vertices_multiset(sort_spec(t));
    assert(vertices(sort_spec(t)).to_multiset() =~= vertices(t).to_multiset());
}

} // verus!
