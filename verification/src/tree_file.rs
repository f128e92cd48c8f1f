//! Where trees are kept: the registry of trees by id, and the path of the
//! file of a tree.

use crate::tree::{Tree, TreeId};
use std::collections::HashMap;
use vstd::prelude::*;

verus! {

/// The registry of trees: the one owner of every tree, by id.
pub struct TreeFile {
    pub trees: HashMap<TreeId, Tree>,
}

impl View for TreeFile {
    type V = Map<TreeId, Tree>;

    open spec fn view(&self) -> Map<TreeId, Tree> {
        self.trees@
    }
}

impl TreeFile {
    /// A registry without trees.
    pub fn new() -> (r: Self)
        ensures
            r@ == Map::<TreeId, Tree>::empty(),
    {
        TreeFile { trees: HashMap::new() }
    }

    /// The tree with the id, if the registry has it.
    pub fn get(&self, id: &TreeId) -> (r: Option<&Tree>)
        ensures
            match r {
                Some(t) => self@.contains_key(*id) && *t == self@[*id],
                None => !self@.contains_key(*id),
            },
    {
        broadcast use vstd::std_specs::hash::group_hash_axioms;

        self.trees.get(id)
    }

    /// Whether the registry has a tree with the id.
    pub fn contains(&self, id: &TreeId) -> (r: bool)
        ensures
            r == self@.contains_key(*id),
    {
        broadcast use vstd::std_specs::hash::group_hash_axioms;

        self.trees.contains_key(id)
    }

    /// Keeps the tree under the id, in place of any tree that was there.
    pub fn put(&mut self, id: &TreeId, tree: Tree)
        ensures
            final(self)@ == old(self)@.insert(*id, tree),
    {
        broadcast use vstd::std_specs::hash::group_hash_axioms;

        self.trees.insert(*id, tree);
    }

    /// Drops the tree with the id.
    pub fn remove(&mut self, id: &TreeId)
        ensures
            final(self)@ == old(self)@.remove(*id),
    {
        broadcast use vstd::std_specs::hash::group_hash_axioms;

        self.trees.remove(id);
    }

    /// How many trees the registry has.
    pub fn len(&self) -> (r: usize)
        ensures
            r == self@.len(),
    {
        broadcast use vstd::std_specs::hash::group_hash_axioms;

        self.trees.len()
    }
}

/// The lower-case hexadecimal digit for `n`.
pub open spec fn hex_digit(n: int) -> char {
    if n == 0 {
        '0'
    } else if n == 1 {
        '1'
    } else if n == 2 {
        '2'
    } else if n == 3 {
        '3'
    } else if n == 4 {
        '4'
    } else if n == 5 {
        '5'
    } else if n == 6 {
        '6'
    } else if n == 7 {
        '7'
    } else if n == 8 {
        '8'
    } else if n == 9 {
        '9'
    } else if n == 10 {
        'a'
    } else if n == 11 {
        'b'
    } else if n == 12 {
        'c'
    } else if n == 13 {
        'd'
    } else if n == 14 {
        'e'
    } else {
        'f'
    }
}

/// One level of the path: a slash and the two hexadecimal digits of a byte.
pub open spec fn byte_seg(b: u64) -> Seq<char> {
    seq!['/', hex_digit(b as int / 16), hex_digit(b as int % 16)]
}

/// The path of the file of a tree: `t`, then one directory level for each of
/// the eight bytes of the id, the most significant first.
pub open spec fn file_path(id: TreeId) -> Seq<char> {
    seq!['t'] + byte_seg((id / 0x100_0000_0000_0000) % 0x100) + byte_seg((id / 0x1_0000_0000_0000) % 0x100)
        + byte_seg((id / 0x100_0000_0000) % 0x100) + byte_seg((id / 0x1_0000_0000) % 0x100) + byte_seg(
        (id / 0x100_0000) % 0x100,
    ) + byte_seg((id / 0x1_0000) % 0x100) + byte_seg((id / 0x100) % 0x100) + byte_seg(id % 0x100)
}

/// The lower-case hexadecimal digit for `n`, as a string.
fn hex_str(n: u64) -> (r: &'static str)
    requires
        n < 16,
    ensures
        r@ == seq![hex_digit(n as int)],
{
    proof {
        reveal_strlit("0");
        reveal_strlit("1");
        reveal_strlit("2");
        reveal_strlit("3");
        reveal_strlit("4");
        reveal_strlit("5");
        reveal_strlit("6");
        reveal_strlit("7");
        reveal_strlit("8");
        reveal_strlit("9");
        reveal_strlit("a");
        reveal_strlit("b");
        reveal_strlit("c");
        reveal_strlit("d");
        reveal_strlit("e");
        reveal_strlit("f");
    }
    let r = if n == 0 {
        "0"
    } else if n == 1 {
        "1"
    } else if n == 2 {
        "2"
    } else if n == 3 {
        "3"
    } else if n == 4 {
        "4"
    } else if n == 5 {
        "5"
    } else if n == 6 {
        "6"
    } else if n == 7 {
        "7"
    } else if n == 8 {
        "8"
    } else if n == 9 {
        "9"
    } else if n == 10 {
        "a"
    } else if n == 11 {
        "b"
    } else if n == 12 {
        "c"
    } else if n == 13 {
        "d"
    } else if n == 14 {
        "e"
    } else {
        "f"
    };
    assert(r@ =~= seq![hex_digit(n as int)]);
    r
}

/// Appends one level of the path for the byte `b`.
fn push_byte(s: &mut String, b: u64)
    requires
        b < 256,
    ensures
        final(s)@ == old(s)@ + byte_seg(b),
{
    proof {
        reveal_strlit("/");
    }
    let ghost s0 = s@;
    s.append("/");
    s.append(hex_str(b / 16));
    s.append(hex_str(b % 16));
    assert(s@ =~= s0 + byte_seg(b));
}

/// Get the string path for a given TreeId.
pub fn get_file_from_id(id: &TreeId) -> (r: String)
    ensures
        r@ == file_path(*id),
{
    proof {
        reveal_strlit("t");
    }
    let mut s = String::from_str("t");
    assert(s@ =~= seq!['t']);
    push_byte(&mut s, (*id / 0x100_0000_0000_0000) % 0x100);
    push_byte(&mut s, (*id / 0x1_0000_0000_0000) % 0x100);
    push_byte(&mut s, (*id / 0x100_0000_0000) % 0x100);
    push_byte(&mut s, (*id / 0x1_0000_0000) % 0x100);
    push_byte(&mut s, (*id / 0x100_0000) % 0x100);
    push_byte(&mut s, (*id / 0x1_0000) % 0x100);
    push_byte(&mut s, (*id / 0x100) % 0x100);
    push_byte(&mut s, *id % 0x100);
    s
}

} // verus!
