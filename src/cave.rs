//! Regions of a cave and the moves of a rescuer who must carry the right
//! gear for each kind of region.

use vstd::prelude::*;

verus! {

/// The modulus of erosion levels.
pub const MODULO: u32 = 20183;

/// What the rescuer has equipped.
#[derive(Clone, Copy, Debug, PartialEq, Eq, Hash, Structural)]
pub enum Equip {
    Nothing,
    Lamp,
    Gear,
}

/// The kind of a region.
#[derive(Clone, Copy, Debug, PartialEq, Eq, Structural)]
pub enum Type {
    Rocky,
    Wet,
    Narrow,
}

/// The region kind for an erosion value: its residue modulo `MODULO`, then
/// modulo three.
pub open spec fn type_of(erosion: u32) -> Type {
    let k = (erosion % MODULO) % 3;
    if k == 0 {
        Type::Rocky
    } else if k == 1 {
        Type::Wet
    } else {
        Type::Narrow
    }
}

impl Type {
    pub fn new(erosion: u32) -> (r: Type)
        ensures
            r == type_of(erosion),
    {
        let k = (erosion % MODULO) % 3;
        if k == 0 {
            Type::Rocky
        } else if k == 1 {
            Type::Wet
        } else {
            Type::Narrow
        }
    }
}

/// The gear to hold when moving from a region of kind `r1` to one of kind
/// `r2` while holding `g`: `g` itself between regions of one kind, else the
/// one tool that both regions allow.
pub open spec fn transition_spec(g: Equip, r1: Type, r2: Type) -> Equip {
    if r1 == r2 {
        g
    } else if (r1 == Type::Rocky && r2 == Type::Wet) || (r1 == Type::Wet && r2 == Type::Rocky) {
        Equip::Gear
    } else if (r1 == Type::Rocky && r2 == Type::Narrow) || (r1 == Type::Narrow && r2 == Type::Rocky) {
        Equip::Lamp
    } else {
        Equip::Nothing
    }
}

pub fn transition(g: Equip, r1: Type, r2: Type) -> (r: Equip)
    ensures
        r == transition_spec(g, r1, r2),
{
    match (r1, r2) {
        (Type::Rocky, Type::Rocky) | (Type::Wet, Type::Wet) | (Type::Narrow, Type::Narrow) => g,
        (Type::Rocky, Type::Wet) | (Type::Wet, Type::Rocky) => Equip::Gear,
        (Type::Rocky, Type::Narrow) | (Type::Narrow, Type::Rocky) => Equip::Lamp,
        (Type::Wet, Type::Narrow) | (Type::Narrow, Type::Wet) => Equip::Nothing,
    }
}

/// A search node: row, column and the gear held.
pub type Node = (usize, usize, Equip);

pub open spec fn gap(a: usize, b: usize) -> int {
    if a > b { a - b } else { b - a }
}

/// The cost estimate of a node: the cost so far plus the Manhattan distance
/// to the target.
pub open spec fn estimate(add: u32, n1: Node, n2: Node) -> int {
    add + gap(n1.0, n2.0) + gap(n1.1, n2.1)
}

/// Priority of node `n1` in the open set when searching towards `n2`: the
/// lower the estimate, the higher the priority.
pub fn prio(add: u32, n1: Node, n2: Node) -> (r: u32)
    requires
        estimate(add, n1, n2) <= u32::MAX,
    ensures
        r == u32::MAX - estimate(add, n1, n2),
{
    let dy: usize = if n1.0 > n2.0 { n1.0 - n2.0 } else { n2.0 - n1.0 };
    let dx: usize = if n1.1 > n2.1 { n1.1 - n2.1 } else { n2.1 - n1.1 };
    u32::MAX - (add + dy as u32 + dx as u32)
}

/// The `k`-th square next to row `y`, column `x`: up, left, down, right.
pub open spec fn step_pos(y: int, x: int, k: int) -> (int, int) {
    if k == 0 {
        (y - 1, x)
    } else if k == 1 {
        (y, x - 1)
    } else if k == 2 {
        (y + 1, x)
    } else {
        (y, x + 1)
    }
}

/// The nodes reached from `node` by the moves numbered `k` and later that
/// stay in the cave, in that order.
pub open spec fn moves_from(risk: Seq<Seq<Type>>, node: Node, k: int) -> Seq<Node>
    decreases 4 - k,
{
    if k >= 4 || k < 0 {
        Seq::empty()
    } else {
        let (y1, x1) = step_pos(node.0 as int, node.1 as int, k);
        let rest = moves_from(risk, node, k + 1);
        if 0 <= y1 < risk.len() && 0 <= x1 < risk[0].len() {
            seq![(y1 as usize, x1 as usize, transition_spec(node.2, risk[node.0 as int][node.1 as int], risk[y1][x1]))]
                + rest
        } else {
            rest
        }
    }
}

pub open spec fn rows_of(risk: Seq<Vec<Type>>) -> Seq<Seq<Type>> {
    Seq::new(risk.len(), |y: int| risk[y]@)
}

/// The nodes next to `node` (up, left, down, right) that lie in the cave,
/// each with the gear held on arriving there.
pub fn neighbors(risk: &[Vec<Type>], node: Node) -> (r: Vec<Node>)
    requires
        node.0 < risk.len(),
        forall|y: int| 0 <= y < risk.len() ==> #[trigger] risk[y].len() == risk[0].len(),
        node.1 < risk[0].len(),
    ensures
        r@ == moves_from(rows_of(risk@), node, 0),
{
    let (y, x, g) = node;
    assert(risk[y as int].len() == risk[0].len());
    let here = risk[y][x];
    let mut r: Vec<Node> = Vec::new();
    let mut k: usize = 0;
    while k < 4
        invariant
            k <= 4,
            node == (y, x, g),
            y < risk.len(),
            x < risk[0].len(),
            here == rows_of(risk@)[y as int][x as int],
            forall|i: int| 0 <= i < risk.len() ==> #[trigger] risk[i].len() == risk[0].len(),
            r@ + moves_from(rows_of(risk@), node, k as int) == moves_from(rows_of(risk@), node, 0),
        decreases 4 - k,
    {
        let cand: Option<(usize, usize)> = if k == 0 {
            if y > 0 { Some((y - 1, x)) } else { None }
        } else if k == 1 {
            if x > 0 { Some((y, x - 1)) } else { None }
        } else if k == 2 {
            if y < risk.len() - 1 { Some((y + 1, x)) } else { None }
        } else {
            if x < risk[0].len() - 1 { Some((y, x + 1)) } else { None }
        };
        let ghost rest = moves_from(rows_of(risk@), node, k + 1);
        match cand {
            Some((y1, x1)) => {
                assert(risk[y1 as int].len() == risk[0].len());
                let there = risk[y1][x1];
                let n = (y1, x1, transition(g, here, there));
                assert(moves_from(rows_of(risk@), node, k as int) == seq![n] + rest);
                r.push(n);
                assert(r@ + rest == (r@.drop_last() + seq![n]) + rest);
                assert(r@ + rest =~= r@.drop_last() + (seq![n] + rest));
            },
            None => {
                assert(moves_from(rows_of(risk@), node, k as int) == rest);
            },
        }
        k = k + 1;
    }
    assert(r@ + moves_from(rows_of(risk@), node, 4) =~= r@);
    r
}

} // verus!
