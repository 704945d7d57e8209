//! Binary encoding ("jam") and decoding ("cue") of nouns.
//!
//! An encoded noun is one of:
//! - an atom: the byte 0, its byte length as 8 little-endian bytes, then its bytes;
//! - a cell: the byte 1, then the head's encoding, then the tail's;
//! - a back-reference: the byte 2, then 8 little-endian bytes giving the
//!   position at which an earlier, completely decoded noun starts.
use std::rc::Rc;
use vstd::bytes::{spec_u64_from_le_bytes, spec_u64_to_le_bytes, u64_from_le_bytes, u64_to_le_bytes};
use vstd::prelude::*;
use crate::noun::{Noun, Tree, canonical_bytes, valid_tree, depth};

verus! {

/// The first byte of an encoded atom.
pub const TAG_ATOM: u8 = 0;

/// The first byte of an encoded cell.
pub const TAG_CELL: u8 = 1;

/// The first byte of a back-reference.
pub const TAG_BACKREF: u8 = 2;

/// The nesting depth of cells that `cue` accepts unless told otherwise.
pub const DEFAULT_MAX_DEPTH: usize = 1024;

/// Why a byte string is not the encoding of a noun.
#[derive(PartialEq, Eq, Structural, Clone, Copy, Debug)]
pub enum DecodeError {
    /// The bytes end before the noun does.
    Truncated,
    /// An unknown tag, a non-canonical atom, a back-reference to no decoded
    /// noun, or bytes left over after the noun.
    Malformed,
    /// Cells are nested deeper than the configured limit.
    TooLarge,
}

/// The encoding of a noun; it never uses back-references.
pub open spec fn encode(t: Tree) -> Seq<u8>
    decreases t,
{
    match t {
        Tree::Atom(s) => seq![TAG_ATOM] + spec_u64_to_le_bytes(s.len() as u64) + s,
        Tree::Cell(h, tl) => seq![TAG_CELL] + encode(*h) + encode(*tl),
    }
}

/// Decoding the item that starts at `pos`, inside `d` enclosing cells, where
/// `tab[i]` holds the noun already decoded from position `i`, if any.
/// On success: the noun, the position after it, and the updated table.
pub open spec fn parse(b: Seq<u8>, pos: int, d: nat, limit: nat, tab: Seq<Option<Tree>>) -> Result<
    (Tree, int, Seq<Option<Tree>>),
    DecodeError,
>
    decreases b.len() - pos,
{
    if pos < 0 || pos >= b.len() {
        Err(DecodeError::Truncated)
    } else if b[pos] == TAG_ATOM {
        if pos + 9 > b.len() {
            Err(DecodeError::Truncated)
        } else {
            let n = spec_u64_from_le_bytes(b.subrange(pos + 1, pos + 9)) as int;
            if n > b.len() - (pos + 9) {
                Err(DecodeError::Truncated)
            } else {
                let s = b.subrange(pos + 9, pos + 9 + n);
                if !canonical_bytes(s) {
                    Err(DecodeError::Malformed)
                } else {
                    Ok((Tree::Atom(s), pos + 9 + n, tab.update(pos, Some(Tree::Atom(s)))))
                }
            }
        }
    } else if b[pos] == TAG_CELL {
        if d >= limit {
            Err(DecodeError::TooLarge)
        } else {
            match parse(b, pos + 1, d + 1, limit, tab) {
                Err(e) => Err(e),
                Ok((h, head_end, tab1)) => {
                    if head_end <= pos || head_end > b.len() {
                        Err(DecodeError::Malformed)
                    } else {
                        match parse(b, head_end, d + 1, limit, tab1) {
                            Err(e) => Err(e),
                            Ok((tl, tail_end, tab2)) => {
                                let c = Tree::Cell(Box::new(h), Box::new(tl));
                                Ok((c, tail_end, tab2.update(pos, Some(c))))
                            },
                        }
                    }
                },
            }
        }
    } else if b[pos] == TAG_BACKREF {
        if pos + 9 > b.len() {
            Err(DecodeError::Truncated)
        } else {
            let off = spec_u64_from_le_bytes(b.subrange(pos + 1, pos + 9)) as int;
            if off < tab.len() && tab[off] is Some {
                Ok((tab[off]->0, pos + 9, tab))
            } else {
                Err(DecodeError::Malformed)
            }
        }
    } else {
        Err(DecodeError::Malformed)
    }
}

/// What `cue` returns: the noun that the whole of `b` encodes, with cells
/// nested at most `limit` deep.
pub open spec fn decode(b: Seq<u8>, limit: nat) -> Result<Tree, DecodeError> {
    match parse(b, 0, 0, limit, Seq::new(b.len(), |i: int| None)) {
        Err(e) => Err(e),
        Ok((t, p, _)) => if p == b.len() {
            Ok(t)
        } else {
            Err(DecodeError::Malformed)
        },
    }
}

/// The trees held by a table of decoded nouns.
pub open spec fn table_view(v: Seq<Option<Rc<Noun>>>) -> Seq<Option<Tree>> {
    v.map_values(|o: Option<Rc<Noun>>| match o {
        Some(n) => Some((*n)@),
        None => None,
    })
}

pub(crate) fn push_all(out: &mut Vec<u8>, src: &[u8])
    ensures
        final(out)@ == old(out)@ + src@,
{
    let mut i: usize = 0;
    while i < src.len()
        invariant
            i <= src@.len(),
            out@ == old(out)@ + src@.subrange(0, i as int),
        decreases src.len() - i,
    {
        out.push(src[i]);
        i = i + 1;
        assert(out@ =~= old(out)@ + src@.subrange(0, i as int));
    }
    assert(src@.subrange(0, src@.len() as int) =~= src@);
}

fn jam_into(n: &Noun, out: &mut Vec<u8>)
    ensures
        final(out)@ == old(out)@ + encode(n@),
    decreases n,
{
    match n {
        Noun::Atom(b) => {
            out.push(TAG_ATOM);
            let len = u64_to_le_bytes(b.len() as u64);
            push_all(out, len.as_slice());
            push_all(out, b.as_slice());
            assert(out@ =~= old(out)@ + encode(n@));
        },
        Noun::Cell(h, t) => {
            out.push(TAG_CELL);
            jam_into(&**h, out);
            jam_into(&**t, out);
            assert(out@ =~= old(out)@ + encode(n@));
        },
    }
}

/// The canonical encoding of `n`.
pub fn jam(n: &Noun) -> (r: Vec<u8>)
    ensures
        r@ == encode(n@),
{
    let mut out: Vec<u8> = Vec::new();
    jam_into(n, &mut out);
    assert(out@ =~= encode(n@));
    out
}

fn read_u64(b: &[u8], pos: usize) -> (r: u64)
    requires
        pos + 8 <= b@.len(),
    ensures
        r == spec_u64_from_le_bytes(b@.subrange(pos as int, pos + 8)),
{
    let len = b.len();
    assert(pos + 8 <= len);
    let s = vstd::slice::slice_subrange(b, pos, pos + 8);
    u64_from_le_bytes(s)
}

fn copy_range(b: &[u8], start: usize, end: usize) -> (r: Vec<u8>)
    requires
        start <= end <= b@.len(),
    ensures
        r@ == b@.subrange(start as int, end as int),
{
    let mut r: Vec<u8> = Vec::new();
    let mut i: usize = start;
    while i < end
        invariant
            start <= i <= end,
            end <= b@.len(),
            r@ == b@.subrange(start as int, i as int),
        decreases end - i,
    {
        r.push(b[i]);
        i = i + 1;
        assert(r@ =~= b@.subrange(start as int, i as int));
    }
    r
}

fn parse_at(
    b: &[u8],
    pos: usize,
    d: usize,
    limit: usize,
    tab: &mut Vec<Option<Rc<Noun>>>,
) -> (r: Result<(Rc<Noun>, usize), DecodeError>)
    requires
        old(tab)@.len() == b@.len(),
        d <= limit,
    ensures
        final(tab)@.len() == b@.len(),
        match parse(b@, pos as int, d as nat, limit as nat, table_view(old(tab)@)) {
            Ok((t, p, tb)) => r is Ok && (*r->Ok_0.0)@ == t && r->Ok_0.1 == p && table_view(
                final(tab)@,
            ) == tb,
            Err(e) => r == Err::<(Rc<Noun>, usize), DecodeError>(e),
        },
    decreases b@.len() - pos,
{
    if pos >= b.len() {
        return Err(DecodeError::Truncated);
    }
    let tag = b[pos];
    if tag == TAG_ATOM {
        if b.len() - pos < 9 {
            return Err(DecodeError::Truncated);
        }
        let n = read_u64(b, pos + 1);
        if n > (b.len() - (pos + 9)) as u64 {
            return Err(DecodeError::Truncated);
        }
        let end = pos + 9 + n as usize;
        let bytes = copy_range(b, pos + 9, end);
        if bytes.len() > 0 && bytes[bytes.len() - 1] == 0 {
            return Err(DecodeError::Malformed);
        }
        let a = Rc::new(Noun::Atom(bytes));
        let ghost before = tab@;
        tab.set(pos, Some(a.clone()));
        assert(table_view(tab@) =~= table_view(before).update(pos as int, Some((*a)@)));
        Ok((a, end))
    } else if tag == TAG_CELL {
        if d >= limit {
            return Err(DecodeError::TooLarge);
        }
        let (h, head_end) = match parse_at(b, pos + 1, d + 1, limit, tab) {
            Ok(x) => x,
            Err(e) => {
                return Err(e);
            },
        };
        if head_end <= pos || head_end > b.len() {
            return Err(DecodeError::Malformed);
        }
        let (t, tail_end) = match parse_at(b, head_end, d + 1, limit, tab) {
            Ok(x) => x,
            Err(e) => {
                return Err(e);
            },
        };
        let c = Rc::new(Noun::Cell(h, t));
        let ghost before = tab@;
        tab.set(pos, Some(c.clone()));
        assert(table_view(tab@) =~= table_view(before).update(pos as int, Some((*c)@)));
        Ok((c, tail_end))
    } else if tag == TAG_BACKREF {
        if b.len() - pos < 9 {
            return Err(DecodeError::Truncated);
        }
        let off = read_u64(b, pos + 1);
        if off >= tab.len() as u64 {
            return Err(DecodeError::Malformed);
        }
        let ghost tv = table_view(tab@);
        match &tab[off as usize] {
            Some(n) => {
                assert(tv[off as int] == Some((**n)@));
                Ok((n.clone(), pos + 9))
            },
            None => Err(DecodeError::Malformed),
        }
    } else {
        Err(DecodeError::Malformed)
    }
}

fn unshare(n: Rc<Noun>) -> (r: Noun)
    ensures
        r@ == (*n)@,
{
    match Rc::try_unwrap(n) {
        Ok(x) => x,
        Err(rc) => (*rc).duplicate(),
    }
}

/// Decodes `bytes`, refusing cells nested deeper than `limit`.
pub fn cue_with_limit(bytes: &[u8], limit: usize) -> (r: Result<Noun, DecodeError>)
    ensures
        match decode(bytes@, limit as nat) {
            Ok(t) => r is Ok && r->Ok_0@ == t,
            Err(e) => r == Err::<Noun, DecodeError>(e),
        },
        r is Ok ==> r->Ok_0.wf(),
{
    proof {
        lemma_decode_valid(bytes@, limit as nat);
    }
    let mut tab: Vec<Option<Rc<Noun>>> = Vec::new();
    let mut i: usize = 0;
    while i < bytes.len()
        invariant
            i <= bytes@.len(),
            tab@.len() == i,
            forall|j: int| 0 <= j < i ==> tab@[j] is None,
        decreases bytes.len() - i,
    {
        tab.push(None);
        i = i + 1;
    }
    assert(table_view(tab@) =~= Seq::new(bytes@.len(), |i: int| None::<Tree>));
    match parse_at(bytes, 0, 0, limit, &mut tab) {
        Err(e) => Err(e),
        Ok((n, p)) => {
            if p == bytes.len() {
                Ok(unshare(n))
            } else {
                Err(DecodeError::Malformed)
            }
        },
    }
}

/// Decodes `bytes` with the default depth limit.
pub fn cue(bytes: &[u8]) -> (r: Result<Noun, DecodeError>)
    ensures
        match decode(bytes@, DEFAULT_MAX_DEPTH as nat) {
            Ok(t) => r is Ok && r->Ok_0@ == t,
            Err(e) => r == Err::<Noun, DecodeError>(e),
        },
        r is Ok ==> r->Ok_0.wf(),
{
    cue_with_limit(bytes, DEFAULT_MAX_DEPTH)
}

} // verus!

verus! {

/// Decoding the encoding of a valid tree, placed anywhere in a larger byte
/// string, gives the tree back and stops right after it.
pub proof fn lemma_parse_encode(
    t: Tree,
    b: Seq<u8>,
    pos: int,
    d: nat,
    limit: nat,
    tab: Seq<Option<Tree>>,
)
    requires
        valid_tree(t),
        0 <= pos,
        pos + encode(t).len() <= b.len(),
        b.subrange(pos, pos + encode(t).len()) == encode(t),
        d + depth(t) <= limit,
        tab.len() == b.len(),
    ensures
        parse(b, pos, d, limit, tab) is Ok,
        parse(b, pos, d, limit, tab)->Ok_0.0 == t,
        parse(b, pos, d, limit, tab)->Ok_0.1 == pos + encode(t).len(),
        parse(b, pos, d, limit, tab)->Ok_0.2.len() == tab.len(),
    decreases t,
{
    let e = encode(t);
    assert(b[pos] == e[0]);
    match t {
        Tree::Atom(s) => {
            vstd::bytes::lemma_auto_spec_u64_to_from_le_bytes();
            let n = s.len();
            assert(b.subrange(pos + 1, pos + 9) =~= e.subrange(1, 9));
            assert(e.subrange(1, 9) =~= spec_u64_to_le_bytes(n as u64));
            assert(b.subrange(pos + 9, pos + 9 + n) =~= e.subrange(9, 9 + n as int));
            assert(e.subrange(9, 9 + n as int) =~= s);
        },
        Tree::Cell(h, tl) => {
            let eh = encode(*h);
            let et = encode(*tl);
            assert(e =~= seq![TAG_CELL] + eh + et);
            assert(b.subrange(pos + 1, pos + 1 + eh.len()) =~= eh) by {
                assert(e.subrange(1, 1 + eh.len() as int) =~= eh);
                assert(b.subrange(pos + 1, pos + 1 + eh.len()) =~= e.subrange(1, 1 + eh.len() as int));
            }
            lemma_parse_encode(*h, b, pos + 1, d + 1, limit, tab);
            let tab1 = parse(b, pos + 1, d + 1, limit, tab)->Ok_0.2;
            let head_end = pos + 1 + eh.len();
            assert(b.subrange(head_end, head_end + et.len()) =~= et) by {
                assert(e.subrange(1 + eh.len() as int, e.len() as int) =~= et);
                assert(b.subrange(head_end, head_end + et.len()) =~= e.subrange(1 + eh.len() as int, e.len() as int));
            }
            lemma_parse_encode(*tl, b, head_end, d + 1, limit, tab1);
        },
    }
}

/// Every tree in a table of decoded nouns is valid.
pub open spec fn table_valid(tab: Seq<Option<Tree>>) -> bool {
    forall|i: int| 0 <= i < tab.len() && (#[trigger] tab[i]) is Some ==> valid_tree(tab[i]->0)
}

/// Decoding yields only valid trees, and keeps every tree in the table valid.
pub proof fn lemma_parse_valid(b: Seq<u8>, pos: int, d: nat, limit: nat, tab: Seq<Option<Tree>>)
    requires
        table_valid(tab),
        tab.len() == b.len(),
    ensures
        parse(b, pos, d, limit, tab) is Ok ==> valid_tree(parse(b, pos, d, limit, tab)->Ok_0.0)
            && table_valid(parse(b, pos, d, limit, tab)->Ok_0.2) && parse(
            b,
            pos,
            d,
            limit,
            tab,
        )->Ok_0.2.len() == b.len(),
    decreases b.len() - pos,
{
    if 0 <= pos < b.len() {
        if b[pos] == TAG_ATOM {
            if pos + 9 <= b.len() {
                let n = spec_u64_from_le_bytes(b.subrange(pos + 1, pos + 9)) as int;
                if n <= b.len() - (pos + 9) {
                    let s = b.subrange(pos + 9, pos + 9 + n);
                    let t2 = tab.update(pos, Some(Tree::Atom(s)));
                    assert(s.len() == n);
                    if canonical_bytes(s) {
                        assert(valid_tree(Tree::Atom(s)));
                        assert forall|i: int| 0 <= i < t2.len() && (#[trigger] t2[i]) is Some implies valid_tree(
                            t2[i]->0,
                        ) by {
                            if i != pos {
                                assert(t2[i] == tab[i]);
                            } else {
                                assert(t2[i] == Some(Tree::Atom(s)));
                            }
                        }
                    }
                }
            }
        } else if b[pos] == TAG_CELL && d < limit {
            lemma_parse_valid(b, pos + 1, d + 1, limit, tab);
            match parse(b, pos + 1, d + 1, limit, tab) {
                Ok((h, head_end, tab1)) => {
                    if head_end > pos && head_end <= b.len() {
                        lemma_parse_valid(b, head_end, d + 1, limit, tab1);
                        match parse(b, head_end, d + 1, limit, tab1) {
                            Ok((tl, tail_end, tab2)) => {
                                let c = Tree::Cell(Box::new(h), Box::new(tl));
                                let t3 = tab2.update(pos, Some(c));
                                assert forall|i: int|
                                    0 <= i < t3.len() && (#[trigger] t3[i]) is Some implies valid_tree(
                                    t3[i]->0,
                                ) by {
                                    if i != pos {
                                        assert(t3[i] == tab2[i]);
                                    }
                                }
                            },
                            Err(_) => {},
                        }
                    }
                },
                Err(_) => {},
            }
        } else if b[pos] == TAG_BACKREF && pos + 9 <= b.len() {
            let off = spec_u64_from_le_bytes(b.subrange(pos + 1, pos + 9)) as int;
            if off < tab.len() && tab[off] is Some {
                assert(valid_tree(tab[off]->0));
            }
        }
    }
}

/// Every noun that `cue` returns is valid.
pub proof fn lemma_decode_valid(b: Seq<u8>, limit: nat)
    ensures
        decode(b, limit) is Ok ==> valid_tree(decode(b, limit)->Ok_0),
{
    lemma_parse_valid(b, 0, 0, limit, Seq::new(b.len(), |i: int| None));
}

/// Decoding what `jam` produced for a valid noun whose cells nest at most
/// `limit` deep gives that noun back.
pub proof fn lemma_cue_jam(n: Noun, limit: nat)
    requires
        n.wf(),
        depth(n@) <= limit,
    ensures
        decode(encode(n@), limit) == Ok::<Tree, DecodeError>(n@),
{
    let b = encode(n@);
    assert(b.subrange(0, b.len() as int) =~= b);
    lemma_parse_encode(n@, b, 0, 0, limit, Seq::new(b.len(), |i: int| None));
}

/// Equal nouns have identical encodings: `jam` is deterministic.
pub proof fn lemma_jam_deterministic(a: Noun, b: Noun)
    requires
        a@ == b@,
    ensures
        encode(a@) == encode(b@),
{
}

} // verus!
