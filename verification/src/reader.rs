//! Reading a tree back from bytes.

use crate::codec::{
    dec_list, dec_scalar, dec_varint, has_bit8, read_refs, read_rows, read_scalar, read_varint,
};
use crate::error::Error;
use crate::layout::{is_empty_m, model, models_b, models_g, NodeM};
use crate::layout::{lemma_models_b, lemma_models_g};
use crate::tree::{node_shape, ref_items, row_items, Branch, Item, Node, Row, Tree, TreeRef};
use crate::wire::{get_u32, get_u64, un32, un64};
use vstd::prelude::*;

verus! {

/// The `n` pivots read from `pos` on.
pub open spec fn dec_pivots(b: Seq<u8>, pos: nat, n: nat) -> Option<(Seq<i64>, nat)>
    decreases n,
{
    if n == 0 {
        Some((Seq::empty(), pos))
    } else {
        match dec_scalar(b, pos) {
            None => None,
            Some((x, p1)) => match dec_pivots(b, p1, (n - 1) as nat) {
                None => None,
                Some((rest, end)) => Some((seq![x] + rest, end)),
            },
        }
    }
}

/// The masks and places of `n` intersection children read from `pos` on.
pub open spec fn dec_bslots(b: Seq<u8>, pos: nat, n: nat) -> Option<(Seq<(u32, u64)>, nat)>
    decreases n,
{
    if n == 0 {
        Some((Seq::empty(), pos))
    } else if pos + 12 > b.len() {
        None
    } else {
        let mask = un32(b.subrange(pos as int, pos as int + 4));
        let slot = un64(b.subrange(pos as int + 4, pos as int + 12));
        match dec_bslots(b, pos + 12, (n - 1) as nat) {
            None => None,
            Some((rest, end)) => Some((seq![(mask, slot)] + rest, end)),
        }
    }
}

/// The places of `n` gap children read from `pos` on.
pub open spec fn dec_gslots(b: Seq<u8>, pos: nat, n: nat) -> Option<(Seq<u64>, nat)>
    decreases n,
{
    if n == 0 {
        Some((Seq::empty(), pos))
    } else if pos + 8 > b.len() {
        None
    } else {
        let slot = un64(b.subrange(pos as int, pos as int + 8));
        match dec_gslots(b, pos + 8, (n - 1) as nat) {
            None => None,
            Some((rest, end)) => Some((seq![slot] + rest, end)),
        }
    }
}

/// The leaf with nothing in it.
pub open spec fn empty_m() -> NodeM {
    NodeM::Data { rows: Seq::empty(), refs: Seq::empty() }
}

/// What the block of a branch says: the pivots, the masks and places of the
/// intersection children, the places of the gap children, and where the
/// block ends.
pub struct Head {
    pub pivots: Seq<i64>,
    pub bslots: Seq<(u32, u64)>,
    pub gslots: Seq<u64>,
    pub end: nat,
}

/// The block of a branch with `n` pivots, read from behind the number of
/// its pivots on.
pub open spec fn dec_head(b: Seq<u8>, p1: nat, n: nat) -> Option<Head> {
    match dec_pivots(b, p1, n) {
        None => None,
        Some((pivots, p2)) => match dec_varint(b, p2) {
            None => None,
            Some((nb, p3)) => {
                let p4 = p3 + (nb + n + 1 + 7) / 8;
                if p4 > b.len() {
                    None
                } else {
                    match dec_bslots(b, p4, nb) {
                        None => None,
                        Some((bslots, p5)) => match dec_gslots(b, p5, n + 1) {
                            None => None,
                            Some((gslots, p6)) => Some(Head { pivots, bslots, gslots, end: p6 }),
                        },
                    }
                }
            },
        }
    }
}

/// The node read at `pos`, with everything under it, and where its bytes
/// end: the block, whose length must be the one it gives, and then the
/// children one behind the other, each where the block says or, where the
/// block says zero, an empty leaf without bytes. A branch has at most 32
/// pivots.
pub open spec fn dec(b: Seq<u8>, pos: nat, dim: nat) -> Option<(NodeM, nat)>
    decreases b.len() - pos, 0nat,
{
    if pos + 4 > b.len() {
        None
    } else {
        let len = un32(b.subrange(pos as int, pos as int + 4));
        match dec_varint(b, pos + 4) {
            None => None,
            Some((n, p1)) => if n == 0 {
                match dec_list(b, p1, dim, false) {
                    None => None,
                    Some((rows, p2)) => match dec_list(b, p2, dim, true) {
                        None => None,
                        Some((refs, p3)) => if p3 == pos + len {
                            Some((NodeM::Data { rows, refs }, p3))
                        } else {
                            None
                        },
                    },
                }
            } else if n > 32 {
                None
            } else {
                match dec_head(b, p1, n) {
                    None => None,
                    Some(h) => if h.end != pos + len || h.end <= pos || h.end > b.len() {
                        None
                    } else {
                        match dec_bkids(b, h.end, dim, h.bslots, 0) {
                            None => None,
                            Some((buckets, p7)) => if p7 <= pos || p7 > b.len() {
                                None
                            } else {
                                match dec_gkids(b, p7, dim, h.gslots, 0) {
                                    None => None,
                                    Some((gaps, p8)) => Some(
                                        (NodeM::Branch { pivots: h.pivots, buckets, gaps }, p8),
                                    ),
                                }
                            },
                        }
                    },
                }
            },
        }
    }
}

/// The child for which the block says `slot`, read at `cur`: an empty leaf
/// without bytes where it says zero, else the node at `cur`, which is where
/// the block must say the child stands, has bytes, and is no empty leaf.
pub open spec fn dec_kid(b: Seq<u8>, cur: nat, dim: nat, slot: u64) -> Option<(NodeM, nat)>
    decreases b.len() - cur, 1nat,
{
    if slot == 0 {
        Some((empty_m(), cur))
    } else if slot != cur + 1 || cur >= b.len() {
        None
    } else {
        match dec(b, cur, dim) {
            None => None,
            Some((child, next)) => if next <= cur || next > b.len() || is_empty_m(child) {
                None
            } else {
                Some((child, next))
            },
        }
    }
}

/// The intersection children from the `j`-th on, read from `cur` on.
pub open spec fn dec_bkids(b: Seq<u8>, cur: nat, dim: nat, slots: Seq<(u32, u64)>, j: nat) -> Option<
    (Seq<(u32, NodeM)>, nat),
>
    decreases b.len() - cur, 2 + slots.len() - j,
{
    if j >= slots.len() {
        Some((Seq::empty(), cur))
    } else {
        match dec_kid(b, cur, dim, slots[j as int].1) {
            None => None,
            Some((child, next)) => if next < cur || next > b.len() {
                None
            } else {
                match dec_bkids(b, next, dim, slots, j + 1) {
                    None => None,
                    Some((rest, end)) => Some((seq![(slots[j as int].0, child)] + rest, end)),
                }
            },
        }
    }
}

/// The gap children from the `j`-th on, read from `cur` on.
pub open spec fn dec_gkids(b: Seq<u8>, cur: nat, dim: nat, slots: Seq<u64>, j: nat) -> Option<
    (Seq<NodeM>, nat),
>
    decreases b.len() - cur, 2 + slots.len() - j,
{
    if j >= slots.len() {
        Some((Seq::empty(), cur))
    } else {
        match dec_kid(b, cur, dim, slots[j as int]) {
            None => None,
            Some((child, next)) => if next < cur || next > b.len() {
                None
            } else {
                match dec_gkids(b, next, dim, slots, j + 1) {
                    None => None,
                    Some((rest, end)) => Some((seq![child] + rest, end)),
                }
            },
        }
    }
}

/// Reads `n` pivots from `pos` on.
fn read_pivots(src: &[u8], pos: usize, n: u64) -> (r: Option<(Vec<i64>, usize)>)
    requires
        pos <= src@.len(),
    ensures
        match r {
            Some((ps, end)) => dec_pivots(src@, pos as nat, n as nat) == Some((ps@, end as nat)) && pos <= end
                <= src@.len() && ps@.len() == n && end == pos + 8 * n,
            None => dec_pivots(src@, pos as nat, n as nat) is None,
        },
{
    let mut ps: Vec<i64> = Vec::new();
    let mut at: usize = pos;
    let mut k: u64 = 0;
    let ghost whole = dec_pivots(src@, pos as nat, n as nat);
    assert(ps@ + Seq::<i64>::empty() =~= ps@);
    while k < n
        invariant
            k <= n,
            pos <= at <= src@.len(),
            at == pos + 8 * k,
            ps@.len() == k,
            whole == dec_pivots(src@, pos as nat, n as nat),
            match dec_pivots(src@, at as nat, (n - k) as nat) {
                Some((rest, end)) => whole == Some((ps@ + rest, end)),
                None => whole is None,
            },
        decreases n - k,
    {
        let (x, p1) = match read_scalar(src, at) {
            None => {
                return None;
            },
            Some(v) => v,
        };
        let ghost p0 = ps@;
        ps.push(x);
        proof {
            match dec_pivots(src@, p1 as nat, (n - k - 1) as nat) {
                Some((rest, end)) => {
                    assert(p0 + (seq![x] + rest) =~= ps@ + rest);
                },
                None => {},
            }
        }
        at = p1;
        k += 1;
    }
    assert(ps@ + Seq::<i64>::empty() =~= ps@);
    Some((ps, at))
}

/// Reads the masks and places of `n` intersection children from `pos` on.
fn read_bslots(src: &[u8], pos: usize, n: u64) -> (r: Option<(Vec<(u32, u64)>, usize)>)
    requires
        pos <= src@.len(),
    ensures
        match r {
            Some((v, end)) => dec_bslots(src@, pos as nat, n as nat) == Some((v@, end as nat)) && pos <= end
                <= src@.len() && v@.len() == n && end == pos + 12 * n,
            None => dec_bslots(src@, pos as nat, n as nat) is None,
        },
{
    let mut v: Vec<(u32, u64)> = Vec::new();
    let mut at: usize = pos;
    let mut k: u64 = 0;
    let ghost whole = dec_bslots(src@, pos as nat, n as nat);
    assert(v@ + Seq::<(u32, u64)>::empty() =~= v@);
    while k < n
        invariant
            k <= n,
            pos <= at <= src@.len(),
            at == pos + 12 * k,
            v@.len() == k,
            whole == dec_bslots(src@, pos as nat, n as nat),
            match dec_bslots(src@, at as nat, (n - k) as nat) {
                Some((rest, end)) => whole == Some((v@ + rest, end)),
                None => whole is None,
            },
        decreases n - k,
    {
        if src.len() - at < 12 {
            return None;
        }
        let mask = match get_u32(src, at) {
            None => {
                return None;
            },
            Some(x) => x,
        };
        let slot = match get_u64(src, at + 4) {
            None => {
                return None;
            },
            Some(x) => x,
        };
        let ghost v0 = v@;
        v.push((mask, slot));
        proof {
            match dec_bslots(src@, (at + 12) as nat, (n - k - 1) as nat) {
                Some((rest, end)) => {
                    assert(v0 + (seq![(mask, slot)] + rest) =~= v@ + rest);
                },
                None => {},
            }
        }
        at = at + 12;
        k += 1;
    }
    assert(v@ + Seq::<(u32, u64)>::empty() =~= v@);
    Some((v, at))
}

/// Reads the places of `n` gap children from `pos` on.
fn read_gslots(src: &[u8], pos: usize, n: u64) -> (r: Option<(Vec<u64>, usize)>)
    requires
        pos <= src@.len(),
    ensures
        match r {
            Some((v, end)) => dec_gslots(src@, pos as nat, n as nat) == Some((v@, end as nat)) && pos <= end
                <= src@.len() && v@.len() == n,
            None => dec_gslots(src@, pos as nat, n as nat) is None,
        },
{
    let mut v: Vec<u64> = Vec::new();
    let mut at: usize = pos;
    let mut k: u64 = 0;
    let ghost whole = dec_gslots(src@, pos as nat, n as nat);
    assert(v@ + Seq::<u64>::empty() =~= v@);
    while k < n
        invariant
            k <= n,
            pos <= at <= src@.len(),
            v@.len() == k,
            whole == dec_gslots(src@, pos as nat, n as nat),
            match dec_gslots(src@, at as nat, (n - k) as nat) {
                Some((rest, end)) => whole == Some((v@ + rest, end)),
                None => whole is None,
            },
        decreases n - k,
    {
        if src.len() - at < 8 {
            return None;
        }
        let slot = match get_u64(src, at) {
            None => {
                return None;
            },
            Some(x) => x,
        };
        let ghost v0 = v@;
        v.push(slot);
        proof {
            match dec_gslots(src@, (at + 8) as nat, (n - k - 1) as nat) {
                Some((rest, end)) => {
                    assert(v0 + (seq![slot] + rest) =~= v@ + rest);
                },
                None => {},
            }
        }
        at = at + 8;
        k += 1;
    }
    assert(v@ + Seq::<u64>::empty() =~= v@);
    Some((v, at))
}

/// What the block of a branch says, as read.
pub struct HeadX {
    pub pivots: Vec<i64>,
    pub bslots: Vec<(u32, u64)>,
    pub gslots: Vec<u64>,
    pub kinds: usize,
    pub end: usize,
}

/// Reads the block of a branch with `n` pivots from behind the number of
/// its pivots on.
fn read_head(src: &[u8], p1: usize, n: u64) -> (r: Option<HeadX>)
    requires
        p1 <= src@.len(),
        1 <= n <= 32,
    ensures
        match r {
            Some(h) => dec_head(src@, p1 as nat, n as nat) == Some(
                Head { pivots: h.pivots@, bslots: h.bslots@, gslots: h.gslots@, end: h.end as nat },
            ) && p1 <= h.end <= src@.len() && h.pivots@.len() == n && h.gslots@.len() == n + 1 && h.kinds
                == kinds_pos(src@, p1 as nat, n as nat) && h.kinds + (h.bslots@.len() + n + 8) / 8 + 12
                * h.bslots@.len() <= src@.len(),
            None => dec_head(src@, p1 as nat, n as nat) is None,
        },
{
    let (pivots, p2) = match read_pivots(src, p1, n) {
        None => {
            return None;
        },
        Some(x) => x,
    };
    let (nb, p3) = match read_varint(src, p2) {
        None => {
            return None;
        },
        Some(x) => x,
    };
    let kinds: u128 = ((nb as u128) + (n as u128) + 8) / 8;
    if kinds > (src.len() - p3) as u128 {
        return None;
    }
    let p4 = p3 + (kinds as usize);
    let (bslots, p5) = match read_bslots(src, p4, nb) {
        None => {
            return None;
        },
        Some(x) => x,
    };
    let (gslots, p6) = match read_gslots(src, p5, n + 1) {
        None => {
            return None;
        },
        Some(x) => x,
    };
    Some(HeadX { pivots, bslots, gslots, kinds: p3, end: p6 })
}

/// Reads the child for which the block says `slot`, at `cur`.
fn read_kid(src: &[u8], cur: usize, dim: usize, slot: u64) -> (r: Option<(Node, usize)>)
    requires
        cur <= src@.len(),
    ensures
        match r {
            Some((node, end)) => dec_kid(src@, cur as nat, dim as nat, slot) == Some((model(node), end as nat))
                && cur <= end <= src@.len() && node_shape(node, dim as nat),
            None => dec_kid(src@, cur as nat, dim as nat, slot) is None,
        },
    decreases src@.len() - cur, 1nat,
{
    if slot == 0 {
        return Some((empty_node(Ghost(dim as nat)), cur));
    }
    if cur >= src.len() || slot != (cur as u64) + 1 {
        return None;
    }
    match read_node(src, cur, dim) {
        None => None,
        Some((child, next)) => {
            if is_empty(&child) {
                None
            } else {
                Some((child, next))
            }
        },
    }
}

/// The leaf with nothing in it.
fn empty_node(Ghost(dim): Ghost<nat>) -> (node: Node)
    ensures
        model(node) == empty_m(),
        node_shape(node, dim),
{
    let node = Node::Data(Vec::new(), Vec::new());
    assert(row_items(Seq::<Row>::empty()) =~= Seq::<Item>::empty());
    assert(ref_items(Seq::<TreeRef>::empty()) =~= Seq::<Item>::empty());
    node
}

/// Whether the node is a leaf with nothing in it.
fn is_empty(node: &Node) -> (r: bool)
    ensures
        r == is_empty_m(model(*node)),
{
    match node {
        Node::Data(rows, refs) => rows.len() == 0 && refs.len() == 0,
        Node::Branch(_) => false,
    }
}

/// Reads the intersection children from `cur` on.
fn read_bkids(src: &[u8], cur: usize, dim: usize, slots: &Vec<(u32, u64)>) -> (r: Option<
    (Vec<(u32, Node)>, usize),
>)
    requires
        cur <= src@.len(),
    ensures
        match r {
            Some((v, end)) => dec_bkids(src@, cur as nat, dim as nat, slots@, 0) == Some(
                (models_b(v@, v@.len()), end as nat),
            ) && cur <= end <= src@.len() && v@.len() == slots@.len() && forall|i: int|
                0 <= i < v@.len() ==> node_shape((#[trigger] v@[i]).1, dim as nat),
            None => dec_bkids(src@, cur as nat, dim as nat, slots@, 0) is None,
        },
    decreases src@.len() - cur, 2nat,
{
    let mut v: Vec<(u32, Node)> = Vec::new();
    let mut at: usize = cur;
    let mut j: usize = 0;
    let ghost whole = dec_bkids(src@, cur as nat, dim as nat, slots@, 0);
    assert(models_b(v@, 0) + Seq::<(u32, NodeM)>::empty() =~= models_b(v@, 0));
    while j < slots.len()
        invariant
            j <= slots@.len(),
            cur <= at <= src@.len(),
            v@.len() == j,
            whole == dec_bkids(src@, cur as nat, dim as nat, slots@, 0),
            forall|i: int| 0 <= i < v@.len() ==> node_shape((#[trigger] v@[i]).1, dim as nat),
            match dec_bkids(src@, at as nat, dim as nat, slots@, j as nat) {
                Some((rest, end)) => whole == Some((models_b(v@, v@.len()) + rest, end)),
                None => whole is None,
            },
        decreases slots@.len() - j,
    {
        let mask = slots[j].0;
        let ghost v0 = v@;
        let ghost m0 = models_b(v0, v0.len());
        let (child, next) = match read_kid(src, at, dim, slots[j].1) {
            None => {
                return None;
            },
            Some(x) => x,
        };
        let ghost cm = model(child);
        v.push((mask, child));
        proof {
            lemma_models_b(v@, v@.len());
            lemma_models_b(v0, v0.len());
            assert(models_b(v@, v@.len()) =~= m0.push((mask, cm)));
            match dec_bkids(src@, next as nat, dim as nat, slots@, (j + 1) as nat) {
                Some((rest, end)) => {
                    assert(m0 + (seq![(mask, cm)] + rest) =~= m0.push((mask, cm)) + rest);
                },
                None => {},
            }
        }
        at = next;
        j += 1;
    }
    assert(models_b(v@, v@.len()) + Seq::<(u32, NodeM)>::empty() =~= models_b(v@, v@.len()));
    Some((v, at))
}

/// Reads the gap children from `cur` on.
fn read_gkids(src: &[u8], cur: usize, dim: usize, slots: &Vec<u64>) -> (r: Option<(Vec<Node>, usize)>)
    requires
        cur <= src@.len(),
    ensures
        match r {
            Some((v, end)) => dec_gkids(src@, cur as nat, dim as nat, slots@, 0) == Some(
                (models_g(v@, v@.len()), end as nat),
            ) && cur <= end <= src@.len() && v@.len() == slots@.len() && forall|i: int|
                0 <= i < v@.len() ==> node_shape(#[trigger] v@[i], dim as nat),
            None => dec_gkids(src@, cur as nat, dim as nat, slots@, 0) is None,
        },
    decreases src@.len() - cur, 2nat,
{
    let mut v: Vec<Node> = Vec::new();
    let mut at: usize = cur;
    let mut j: usize = 0;
    let ghost whole = dec_gkids(src@, cur as nat, dim as nat, slots@, 0);
    assert(models_g(v@, 0) + Seq::<NodeM>::empty() =~= models_g(v@, 0));
    while j < slots.len()
        invariant
            j <= slots@.len(),
            cur <= at <= src@.len(),
            v@.len() == j,
            whole == dec_gkids(src@, cur as nat, dim as nat, slots@, 0),
            forall|i: int| 0 <= i < v@.len() ==> node_shape(#[trigger] v@[i], dim as nat),
            match dec_gkids(src@, at as nat, dim as nat, slots@, j as nat) {
                Some((rest, end)) => whole == Some((models_g(v@, v@.len()) + rest, end)),
                None => whole is None,
            },
        decreases slots@.len() - j,
    {
        let ghost v0 = v@;
        let ghost m0 = models_g(v0, v0.len());
        let (child, next) = match read_kid(src, at, dim, slots[j]) {
            None => {
                return None;
            },
            Some(x) => x,
        };
        let ghost cm = model(child);
        v.push(child);
        proof {
            lemma_models_g(v@, v@.len());
            lemma_models_g(v0, v0.len());
            assert(models_g(v@, v@.len()) =~= m0.push(cm));
            match dec_gkids(src@, next as nat, dim as nat, slots@, (j + 1) as nat) {
                Some((rest, end)) => {
                    assert(m0 + (seq![cm] + rest) =~= m0.push(cm) + rest);
                },
                None => {},
            }
        }
        at = next;
        j += 1;
    }
    assert(models_g(v@, v@.len()) + Seq::<NodeM>::empty() =~= models_g(v@, v@.len()));
    Some((v, at))
}

/// Reads the node at `pos`, with everything under it.
pub fn read_node(src: &[u8], pos: usize, dim: usize) -> (r: Option<(Node, usize)>)
    ensures
        match r {
            Some((node, end)) => dec(src@, pos as nat, dim as nat) == Some((model(node), end as nat)) && pos
                < end <= src@.len() && node_shape(node, dim as nat),
            None => dec(src@, pos as nat, dim as nat) is None,
        },
    decreases src@.len() - pos, 0nat,
{
    if src.len() < 4 || pos > src.len() - 4 {
        return None;
    }
    let len = match get_u32(src, pos) {
        None => {
            return None;
        },
        Some(x) => x,
    };
    let (n, p1) = match read_varint(src, pos + 4) {
        None => {
            return None;
        },
        Some(x) => x,
    };
    if n == 0 {
        let (rows, p2) = match read_rows(src, p1, dim) {
            None => {
                return None;
            },
            Some(x) => x,
        };
        let (refs, p3) = match read_refs(src, p2, dim) {
            None => {
                return None;
            },
            Some(x) => x,
        };
        if (p3 - pos) as u64 != len as u64 {
            return None;
        }
        return Some((Node::Data(rows, refs), p3));
    }
    if n > 32 {
        return None;
    }
    let h = match read_head(src, p1, n) {
        None => {
            return None;
        },
        Some(x) => x,
    };
    if (h.end - pos) as u64 != len as u64 {
        return None;
    }
    let (buckets, p7) = match read_bkids(src, h.end, dim, &h.bslots) {
        None => {
            return None;
        },
        Some(x) => x,
    };
    let (gaps, p8) = match read_gkids(src, p7, dim, &h.gslots) {
        None => {
            return None;
        },
        Some(x) => x,
    };
    let node = Node::Branch(Branch { pivots: h.pivots, intersections: buckets, nodes: gaps });
    Some((node, p8))
}

/// The block of a branch, as it stands in the bytes of a tree: the pivots,
/// and for each intersection child and each gap child whether the block
/// says that it is a leaf and what stands for its place, zero for an
/// empty leaf and else one more than where its block begins.
pub struct BranchBlock {
    pub pivots: Vec<i64>,
    pub masks: Vec<u32>,
    pub intersecting: Vec<(bool, u64)>,
    pub buckets: Vec<(bool, u64)>,
}

/// Where the bits that tell the leaves among the children stand in the
/// block of a branch with `n` pivots, read from behind the number of its
/// pivots on.
pub open spec fn kinds_pos(b: Seq<u8>, p1: nat, n: nat) -> nat {
    match dec_pivots(b, p1, n) {
        None => 0,
        Some((pivots, p2)) => match dec_varint(b, p2) {
            None => 0,
            Some((nb, p3)) => p3,
        },
    }
}

/// Where the pivots stand in the block that begins at `pos`: behind its
/// length and the number of its pivots.
pub open spec fn pivots_pos(b: Seq<u8>, pos: nat) -> nat {
    match dec_varint(b, pos + 4) {
        None => 0,
        Some((n, p1)) => p1,
    }
}

/// Whether the block says that child `j` is a leaf: bit `j mod 8` of byte
/// `j / 8` of the bits that stand at `p3`.
pub open spec fn kind_bit(b: Seq<u8>, p3: nat, j: int) -> bool {
    has_bit8(b[p3 + j / 8], (j % 8) as u8)
}

/// The block of the branch that begins at `pos`, if one begins there.
pub open spec fn dec_branch(b: Seq<u8>, pos: nat) -> Option<Head> {
    if pos + 4 > b.len() {
        None
    } else {
        match dec_varint(b, pos + 4) {
            None => None,
            Some((n, p1)) => if n == 0 || n > 32 {
                None
            } else {
                match dec_head(b, p1, n) {
                    None => None,
                    Some(h) => if h.end == pos + un32(b.subrange(pos as int, pos as int + 4)) {
                        Some(h)
                    } else {
                        None
                    },
                }
            },
        }
    }
}

/// Reads the block of the branch that begins at `pos`.
pub fn read_branch(src: &[u8], pos: usize) -> (r: Option<BranchBlock>)
    ensures
        match r {
            Some(x) => dec_branch(src@, pos as nat) matches Some(h) && {
                let n = h.pivots.len();
                let nb = h.bslots.len();
                let p3 = kinds_pos(src@, pivots_pos(src@, pos as nat), n);
                &&& x.pivots@ == h.pivots
                &&& x.masks@.len() == nb
                &&& x.intersecting@.len() == nb
                &&& x.buckets@.len() == h.gslots.len()
                &&& forall|j: int|
                    0 <= j < nb ==> x.masks@[j] == h.bslots[j].0 && (#[trigger] x.intersecting@[j]) == (
                        kind_bit(src@, p3, j),
                        h.bslots[j].1,
                    )
                &&& forall|j: int|
                    0 <= j < h.gslots.len() ==> (#[trigger] x.buckets@[j]) == (kind_bit(src@, p3, nb + j), h.gslots[j])
            },
            None => dec_branch(src@, pos as nat) is None,
        },
{
    if src.len() < 4 || pos > src.len() - 4 {
        return None;
    }
    let len = match get_u32(src, pos) {
        None => {
            return None;
        },
        Some(x) => x,
    };
    let (n, p1) = match read_varint(src, pos + 4) {
        None => {
            return None;
        },
        Some(x) => x,
    };
    if n == 0 || n > 32 {
        return None;
    }
    let h = match read_head(src, p1, n) {
        None => {
            return None;
        },
        Some(x) => x,
    };
    if (h.end - pos) as u64 != len as u64 {
        return None;
    }
    let p3 = h.kinds;
    let nb = h.bslots.len();
    let ng = h.gslots.len();
    let total = src.len();
    let mut masks: Vec<u32> = Vec::new();
    let mut intersecting: Vec<(bool, u64)> = Vec::new();
    let mut j: usize = 0;
    while j < nb
        invariant
            j <= nb,
            nb == h.bslots@.len(),
            1 <= n <= 32,
            total == src@.len(),
            p3 + (nb + n + 8) / 8 + 12 * nb <= src@.len(),
            masks@.len() == j,
            intersecting@.len() == j,
            forall|i: int| 0 <= i < j ==> (#[trigger] masks@[i]) == h.bslots@[i].0,
            forall|i: int|
                0 <= i < j ==> (#[trigger] intersecting@[i]) == (kind_bit(src@, p3 as nat, i), h.bslots@[i].1),
        decreases nb - j,
    {
        assert(j / 8 <= (nb + n + 8) / 8);
        assert(p3 + j / 8 < src@.len());
        let byte = src[p3 + j / 8];
        let kind = byte & (1u8 << ((j % 8) as u8)) != 0;
        let ghost m0 = masks@;
        let ghost i0 = intersecting@;
        masks.push(h.bslots[j].0);
        intersecting.push((kind, h.bslots[j].1));
        proof {
            assert forall|i: int| 0 <= i < j + 1 implies (#[trigger] masks@[i]) == h.bslots@[i].0 by {
                if i < j {
                    assert(masks@[i] == m0[i]);
                }
            }
            assert forall|i: int| 0 <= i < j + 1 implies (#[trigger] intersecting@[i]) == (
                kind_bit(src@, p3 as nat, i),
                h.bslots@[i].1,
            ) by {
                if i < j {
                    assert(intersecting@[i] == i0[i]);
                }
            }
        }
        j += 1;
    }
    let mut buckets: Vec<(bool, u64)> = Vec::new();
    let mut k: usize = 0;
    while k < ng
        invariant
            k <= ng,
            ng == h.gslots@.len(),
            ng == n + 1,
            1 <= n <= 32,
            nb == h.bslots@.len(),
            total == src@.len(),
            p3 + (nb + n + 8) / 8 + 12 * nb <= src@.len(),
            buckets@.len() == k,
            forall|i: int|
                0 <= i < k ==> (#[trigger] buckets@[i]) == (kind_bit(src@, p3 as nat, nb + i), h.gslots@[i]),
        decreases ng - k,
    {
        assert(nb + k <= nb + n);
        assert((nb + k) / 8 <= (nb + n + 8) / 8);
        assert(p3 + (nb + k) / 8 < src@.len());
        let byte = src[p3 + (nb + k) / 8];
        let kind = byte & (1u8 << (((nb + k) % 8) as u8)) != 0;
        let ghost b0 = buckets@;
        buckets.push((kind, h.gslots[k]));
        proof {
            assert forall|i: int| 0 <= i < k + 1 implies (#[trigger] buckets@[i]) == (
                kind_bit(src@, p3 as nat, nb + i),
                h.gslots@[i],
            ) by {
                if i < k {
                    assert(buckets@[i] == b0[i]);
                }
            }
        }
        k += 1;
    }
    Some(BranchBlock { pivots: h.pivots, masks, intersecting, buckets })
}

impl Tree {
    /// The tree of arity `dim` that stands at the front of the bytes. Bytes
    /// that are not a tree of that arity are the error.
    pub fn from_bytes(src: &[u8], dim: usize) -> (r: Result<Tree, Error>)
        ensures
            match r {
                Ok(t) => node_shape(t.root, dim as nat) && (dec(src@, 0, dim as nat) matches Some((m, end))
                    && m == model(t.root)),
                Err(e) => e is Serialize && dec(src@, 0, dim as nat) is None,
            },
    {
        match read_node(src, 0, dim) {
            Some((root, _)) => Ok(Tree { root }),
            None => Err(Error::Serialize),
        }
    }
}

} // verus!
