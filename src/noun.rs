use std::rc::Rc;
use vstd::prelude::*;

verus! {

/// The mathematical value of a noun: an atom (its bytes, least significant
/// first) or an ordered pair of nouns.
pub enum Tree {
    Atom(Seq<u8>),
    Cell(Box<Tree>, Box<Tree>),
}

/// An atom's bytes are canonical when they have no trailing (most significant) zero byte.
pub open spec fn canonical_bytes(s: Seq<u8>) -> bool {
    s.len() == 0 || s.last() != 0u8
}

/// Every atom in the tree is canonical, and its length fits in 64 bits.
pub open spec fn valid_tree(t: Tree) -> bool
    decreases t,
{
    match t {
        Tree::Atom(s) => canonical_bytes(s) && s.len() <= u64::MAX,
        Tree::Cell(h, tl) => valid_tree(*h) && valid_tree(*tl),
    }
}

/// Number of nested cells on the longest path from the root.
pub open spec fn depth(t: Tree) -> nat
    decreases t,
{
    match t {
        Tree::Atom(_) => 0,
        Tree::Cell(h, tl) => {
            let a = depth(*h);
            let b = depth(*tl);
            1 + if a >= b { a } else { b }
        },
    }
}

/// An immutable noun. Cells share their children by reference.
pub enum Noun {
    Atom(Vec<u8>),
    Cell(Rc<Noun>, Rc<Noun>),
}

impl View for Noun {
    type V = Tree;

    open spec fn view(&self) -> Tree
        decreases self,
    {
        match self {
            Noun::Atom(b) => Tree::Atom(b@),
            Noun::Cell(h, t) => Tree::Cell(Box::new((**h).view()), Box::new((**t).view())),
        }
    }
}

impl Noun {
    /// A noun is valid when all its atoms are canonical.
    pub open spec fn wf(&self) -> bool {
        valid_tree(self@)
    }

    /// The atom whose little-endian bytes are `bytes`, with trailing zero bytes removed.
    pub fn atom(bytes: Vec<u8>) -> (r: Noun)
        ensures
            r.wf(),
            r@ == Tree::Atom(trim_zeros(bytes@)),
    {
        let mut b = bytes;
        while b.len() > 0 && b[b.len() - 1] == 0
            invariant
                trim_zeros(b@) == trim_zeros(bytes@),
            decreases b.len(),
        {
            b.pop();
        }
        Noun::Atom(b)
    }

    /// The atom holding the number `v`.
    pub fn from_u64(v: u64) -> (r: Noun)
        ensures
            r.wf(),
            r@ == Tree::Atom(trim_zeros(vstd::bytes::spec_u64_to_le_bytes(v))),
    {
        Noun::atom(vstd::bytes::u64_to_le_bytes(v))
    }

    /// The cell `[head tail]`.
    pub fn cell(head: Noun, tail: Noun) -> (r: Noun)
        ensures
            r@ == Tree::Cell(Box::new(head@), Box::new(tail@)),
            r.wf() == (head.wf() && tail.wf()),
    {
        Noun::Cell(Rc::new(head), Rc::new(tail))
    }

    /// Whether this noun is an atom.
    pub fn is_atom(&self) -> (r: bool)
        ensures
            r == (self@ is Atom),
    {
        match self {
            Noun::Atom(_) => true,
            Noun::Cell(_, _) => false,
        }
    }

    /// The bytes of an atom, or `None` for a cell.
    pub fn atom_bytes(&self) -> (r: Option<&Vec<u8>>)
        ensures
            match self@ {
                Tree::Atom(s) => r is Some && r->0@ == s,
                Tree::Cell(_, _) => r is None,
            },
    {
        match self {
            Noun::Atom(b) => Some(b),
            Noun::Cell(_, _) => None,
        }
    }

    /// The head of a cell, or `None` for an atom.
    pub fn head(&self) -> (r: Option<&Noun>)
        ensures
            match self@ {
                Tree::Atom(_) => r is None,
                Tree::Cell(h, _) => r is Some && r->0@ == *h,
            },
    {
        match self {
            Noun::Atom(_) => None,
            Noun::Cell(h, _) => Some(&**h),
        }
    }

    /// The tail of a cell, or `None` for an atom.
    pub fn tail(&self) -> (r: Option<&Noun>)
        ensures
            match self@ {
                Tree::Atom(_) => r is None,
                Tree::Cell(_, t) => r is Some && r->0@ == *t,
            },
    {
        match self {
            Noun::Atom(_) => None,
            Noun::Cell(_, t) => Some(&**t),
        }
    }

    /// Structural equality of two nouns.
    pub fn equals(&self, other: &Noun) -> (r: bool)
        ensures
            r == (self@ == other@),
        decreases self,
    {
        match (self, other) {
            (Noun::Atom(a), Noun::Atom(b)) => bytes_equal(a, b),
            (Noun::Cell(h1, t1), Noun::Cell(h2, t2)) => {
                let a = (**h1).equals(&**h2);
                if !a {
                    return false;
                }
                (**t1).equals(&**t2)
            },
            _ => false,
        }
    }

    /// An independent copy with the same value.
    pub fn duplicate(&self) -> (r: Noun)
        ensures
            r@ == self@,
    {
        match self {
            Noun::Atom(b) => Noun::Atom(copy_bytes(b)),
            Noun::Cell(h, t) => Noun::Cell(h.clone(), t.clone()),
        }
    }
}

/// The bytes with all trailing zero bytes removed.
pub open spec fn trim_zeros(s: Seq<u8>) -> Seq<u8>
    decreases s.len(),
{
    if s.len() > 0 && s.last() == 0u8 {
        trim_zeros(s.drop_last())
    } else {
        s
    }
}

/// Whether two byte vectors hold the same bytes.
pub fn bytes_equal(a: &Vec<u8>, b: &Vec<u8>) -> (r: bool)
    ensures
        r == (a@ == b@),
{
    if a.len() != b.len() {
        return false;
    }
    let mut i: usize = 0;
    while i < a.len()
        invariant
            a@.len() == b@.len(),
            i <= a@.len(),
            forall|j: int| 0 <= j < i ==> a@[j] == b@[j],
        decreases a.len() - i,
    {
        if a[i] != b[i] {
            return false;
        }
        i = i + 1;
    }
    assert(a@ =~= b@);
    true
}

/// A copy of a byte vector.
pub fn copy_bytes(a: &Vec<u8>) -> (r: Vec<u8>)
    ensures
        r@ == a@,
{
    let mut r: Vec<u8> = Vec::new();
    let mut i: usize = 0;
    while i < a.len()
        invariant
            i <= a@.len(),
            r@ == a@.subrange(0, i as int),
        decreases a.len() - i,
    {
        r.push(a[i]);
        i = i + 1;
    }
    assert(r@ =~= a@);
    r
}

} // verus!
