//! Positions in a tree.
use vstd::prelude::*;
use super::Offset;

verus! {

/// Item location in a B-Tree: the identifier of a node and an offset in it.
///
/// An address is *valid* in a tree if its identifier names a node of the
/// tree and its offset lies between `-1` and the number of items of that
/// node, both included. It is *occupied* if the offset names an item. A
/// *back address* is a valid address whose offset is at least `0`: where the
/// offset is the number of items it names no item, but a place to insert
/// one. A *front address* is a valid address whose offset is less than the
/// number of items.
#[derive(Clone, Copy, PartialEq, Eq, Structural, Debug)]
pub struct ItemAddr {
    /// Identifier of the node.
    pub id: usize,
    /// Offset in the node.
    pub offset: Offset,
}

/// The decimal digit that stands for `d`.
pub open spec fn digit(d: nat) -> char {
    if d == 0 {
        '0'
    } else if d == 1 {
        '1'
    } else if d == 2 {
        '2'
    } else if d == 3 {
        '3'
    } else if d == 4 {
        '4'
    } else if d == 5 {
        '5'
    } else if d == 6 {
        '6'
    } else if d == 7 {
        '7'
    } else if d == 8 {
        '8'
    } else {
        '9'
    }
}

/// The decimal notation of `n`, without leading zeros.
pub open spec fn decimal(n: nat) -> Seq<char>
    decreases n,
{
    if n < 10 {
        seq![digit(n)]
    } else {
        decimal(n / 10).push(digit(n % 10))
    }
}

fn digit_of(d: usize) -> (c: char)
    requires
        d < 10,
    ensures
        c == digit(d as nat),
{
    if d == 0 {
        '0'
    } else if d == 1 {
        '1'
    } else if d == 2 {
        '2'
    } else if d == 3 {
        '3'
    } else if d == 4 {
        '4'
    } else if d == 5 {
        '5'
    } else if d == 6 {
        '6'
    } else if d == 7 {
        '7'
    } else if d == 8 {
        '8'
    } else {
        '9'
    }
}

/// The characters of the decimal notation of `n`.
pub fn decimal_of(n: usize) -> (v: Vec<char>)
    ensures
        v@ == decimal(n as nat),
    decreases n,
{
    if n < 10 {
        let mut v = Vec::new();
        v.push(digit_of(n));
        assert(v@ =~= seq![digit(n as nat)]);
        v
    } else {
        let mut v = decimal_of(n / 10);
        v.push(digit_of(n % 10));
        v
    }
}

/// `String::from_iter` on characters: the string made of them, in their
/// order.
#[verifier::external_body]
pub(crate) fn text(chars: Vec<char>) -> (r: String)
    ensures
        r@ == chars@,
{
    String::from_iter(chars)
}

impl ItemAddr {
    /// The address of the place `offset` of the node `id`.
    pub fn new(id: usize, offset: Offset) -> (addr: ItemAddr)
        ensures
            addr.id == id,
            addr.offset == offset,
    {
        ItemAddr { id, offset }
    }

    /// The address that is in no tree.
    pub fn nowhere() -> (addr: ItemAddr)
        ensures
            addr.id == usize::MAX,
            addr.offset@ == 0,
    {
        ItemAddr { id: usize::MAX, offset: Offset(0) }
    }

    /// The address in the notation `@id:offset`.
    pub open spec fn notation(&self) -> Seq<char> {
        seq!['@'] + decimal(self.id as nat) + seq![':'] + self.offset.notation()
    }

    /// The address in the notation `@id:offset`.
    pub fn to_string(&self) -> (r: String)
        ensures
            r@ == self.notation(),
    {
        let mut v: Vec<char> = Vec::new();
        v.push('@');
        let mut id = decimal_of(self.id);
        v.append(&mut id);
        v.push(':');
        let mut offset = self.offset.chars();
        v.append(&mut offset);
        assert(v@ =~= self.notation());
        text(v)
    }

    /// The address is the one that is in no tree.
    pub open spec fn spec_is_nowhere(&self) -> bool {
        self.id == usize::MAX
    }

    /// Tells whether the address is the one that is in no tree.
    #[verifier::when_used_as_spec(spec_is_nowhere)]
    pub fn is_nowhere(&self) -> (r: bool)
        ensures
            r == self.spec_is_nowhere(),
    {
        self.id == usize::MAX
    }
}

} // verus!
