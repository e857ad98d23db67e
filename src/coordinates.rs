use vstd::prelude::*;

verus! {

/// A cell address on the board: column `x`, row `y`.
#[derive(Debug, Clone, Copy, PartialEq, Eq, Hash, Structural)]
pub struct Coordinates {
    pub x: u16,
    pub y: u16,
}

/// The address `(x + dx, y + dy)`, or `None` when a component leaves the range of `u16`.
pub open spec fn shifted(c: Coordinates, dx: int, dy: int) -> Option<Coordinates> {
    let nx = c.x + dx;
    let ny = c.y + dy;
    if 0 <= nx <= u16::MAX && 0 <= ny <= u16::MAX {
        Some(Coordinates { x: nx as u16, y: ny as u16 })
    } else {
        None
    }
}

/// `a` and `b` are distinct and touch by a side or a corner.
pub open spec fn adjacent(a: Coordinates, b: Coordinates) -> bool {
    a != b && -1 <= b.x - a.x <= 1 && -1 <= b.y - a.y <= 1
}

pub open spec fn push_some(s: Seq<Coordinates>, o: Option<Coordinates>) -> Seq<Coordinates> {
    match o {
        Some(q) => s.push(q),
        None => s,
    }
}

/// The representable neighbours of `c`, in the fixed order of the offsets
/// (-1,-1), (0,-1), (1,-1), (-1,0), (1,0), (-1,1), (0,1), (1,1).
pub open spec fn square_seq(c: Coordinates) -> Seq<Coordinates> {
    let s0 = push_some(Seq::empty(), shifted(c, -1, -1));
    let s1 = push_some(s0, shifted(c, 0, -1));
    let s2 = push_some(s1, shifted(c, 1, -1));
    let s3 = push_some(s2, shifted(c, -1, 0));
    let s4 = push_some(s3, shifted(c, 1, 0));
    let s5 = push_some(s4, shifted(c, -1, 1));
    let s6 = push_some(s5, shifted(c, 0, 1));
    push_some(s6, shifted(c, 1, 1))
}

/// Appending `x` adds exactly `x` to the members of a sequence.
pub proof fn lemma_push_contains<A>(s: Seq<A>, x: A, p: A)
    ensures
        s.push(x).contains(p) <==> (s.contains(p) || p == x),
{
    if s.push(x).contains(p) && !s.contains(p) {
        let i = choose|i: int| 0 <= i < s.push(x).len() && s.push(x)[i] == p;
        assert(i == s.len());
    }
    if s.contains(p) {
        let i = choose|i: int| 0 <= i < s.len() && s[i] == p;
        assert(s.push(x)[i] == p);
    }
    assert(s.push(x)[s.len() as int] == x);
}

proof fn lemma_push_some_contains(s: Seq<Coordinates>, o: Option<Coordinates>, q: Coordinates)
    ensures
        push_some(s, o).contains(q) <==> (s.contains(q) || o == Some(q)),
        push_some(s, o).len() <= s.len() + 1,
{
    if let Some(p) = o {
        if s.push(p).contains(q) && !s.contains(q) {
            let i = choose|i: int| 0 <= i < s.push(p).len() && s.push(p)[i] == q;
            assert(i == s.len());
        }
        if s.contains(q) {
            let i = choose|i: int| 0 <= i < s.len() && s[i] == q;
            assert(s.push(p)[i] == q);
        }
        assert(o == Some(q) ==> s.push(p)[s.len() as int] == q);
    }
}

proof fn lemma_push_some_distinct(s: Seq<Coordinates>, o: Option<Coordinates>)
    requires
        s.no_duplicates(),
        forall|q: Coordinates| o == Some(q) ==> !s.contains(q),
    ensures
        push_some(s, o).no_duplicates(),
{
    if let Some(p) = o {
        let t = s.push(p);
        assert forall|i: int, j: int| 0 <= i < j < t.len() implies t[i] != t[j] by {
            if j == s.len() {
                assert(s[i] == t[i]);
                assert(s.contains(s[i]));
            } else {
                assert(s[i] == t[i] && s[j] == t[j]);
            }
        }
    }
}

/// The square around a cell holds exactly its neighbours, each once.
pub proof fn lemma_square_seq(c: Coordinates)
    ensures
        square_seq(c).len() <= 8,
        square_seq(c).no_duplicates(),
        forall|q: Coordinates| #[trigger] square_seq(c).contains(q) <==> adjacent(c, q),
{
    let s0 = push_some(Seq::empty(), shifted(c, -1, -1));
    let s1 = push_some(s0, shifted(c, 0, -1));
    let s2 = push_some(s1, shifted(c, 1, -1));
    let s3 = push_some(s2, shifted(c, -1, 0));
    let s4 = push_some(s3, shifted(c, 1, 0));
    let s5 = push_some(s4, shifted(c, -1, 1));
    let s6 = push_some(s5, shifted(c, 0, 1));
    let s7 = push_some(s6, shifted(c, 1, 1));
    assert forall|q: Coordinates| #[trigger] s7.contains(q) <==> (
        shifted(c, -1, -1) == Some(q) || shifted(c, 0, -1) == Some(q)
        || shifted(c, 1, -1) == Some(q) || shifted(c, -1, 0) == Some(q)
        || shifted(c, 1, 0) == Some(q) || shifted(c, -1, 1) == Some(q)
        || shifted(c, 0, 1) == Some(q) || shifted(c, 1, 1) == Some(q)) by {
        lemma_push_some_contains(Seq::empty(), shifted(c, -1, -1), q);
        lemma_push_some_contains(s0, shifted(c, 0, -1), q);
        lemma_push_some_contains(s1, shifted(c, 1, -1), q);
        lemma_push_some_contains(s2, shifted(c, -1, 0), q);
        lemma_push_some_contains(s3, shifted(c, 1, 0), q);
        lemma_push_some_contains(s4, shifted(c, -1, 1), q);
        lemma_push_some_contains(s5, shifted(c, 0, 1), q);
        lemma_push_some_contains(s6, shifted(c, 1, 1), q);
    }
    assert forall|q: Coordinates| s7.contains(q) <==> adjacent(c, q) by {
        if adjacent(c, q) {
            let dx = q.x - c.x;
            let dy = q.y - c.y;
            assert(shifted(c, dx, dy) == Some(q));
        }
    }
    let q0 = Coordinates { x: 0, y: 0 };
    lemma_push_some_contains(Seq::empty(), shifted(c, -1, -1), q0);
    lemma_push_some_contains(s0, shifted(c, 0, -1), q0);
    lemma_push_some_contains(s1, shifted(c, 1, -1), q0);
    lemma_push_some_contains(s2, shifted(c, -1, 0), q0);
    lemma_push_some_contains(s3, shifted(c, 1, 0), q0);
    lemma_push_some_contains(s4, shifted(c, -1, 1), q0);
    lemma_push_some_contains(s5, shifted(c, 0, 1), q0);
    lemma_push_some_contains(s6, shifted(c, 1, 1), q0);
    lemma_push_some_distinct(Seq::empty(), shifted(c, -1, -1));
    lemma_push_some_distinct(s0, shifted(c, 0, -1));
    lemma_push_some_distinct(s1, shifted(c, 1, -1));
    lemma_push_some_distinct(s2, shifted(c, -1, 0));
    lemma_push_some_distinct(s3, shifted(c, 1, 0));
    lemma_push_some_distinct(s4, shifted(c, -1, 1));
    lemma_push_some_distinct(s5, shifted(c, 0, 1));
    lemma_push_some_distinct(s6, shifted(c, 1, 1));
}

impl Coordinates {
    pub fn new(x: u16, y: u16) -> (r: Self)
        ensures
            r.x == x,
            r.y == y,
    {
        Coordinates { x, y }
    }

    /// Moves by `(dx, dy)`; `None` when a component would leave the range of `u16`.
    /// Grid bounds are not checked here.
    pub fn offset(self, dx: i8, dy: i8) -> (r: Option<Coordinates>)
        ensures
            r == shifted(self, dx as int, dy as int),
    {
        let nx: i32 = self.x as i32 + dx as i32;
        let ny: i32 = self.y as i32 + dy as i32;
        if 0 <= nx && nx <= 65535 && 0 <= ny && ny <= 65535 {
            Some(Coordinates { x: nx as u16, y: ny as u16 })
        } else {
            None
        }
    }
}

} // verus!
