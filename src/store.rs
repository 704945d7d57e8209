//! Versioned checkpoints of a jammed noun, held as file images.
//!
//! A file image is the schema version (4 little-endian bytes), the sequence
//! number (8), the payload length (8), then the payload: the jammed state.
//! The store keeps the images of the directory it stands for, oldest first;
//! writing them out and reading them back is left to the caller.
use vstd::bytes::{
    spec_u32_from_le_bytes, spec_u32_to_le_bytes, spec_u64_from_le_bytes, spec_u64_to_le_bytes,
    u32_from_le_bytes, u32_to_le_bytes, u64_from_le_bytes, u64_to_le_bytes,
};
use vstd::prelude::*;
use crate::codec::{cue, decode, encode, jam, push_all, DEFAULT_MAX_DEPTH, lemma_cue_jam};
use crate::noun::{Noun, Tree, depth};

verus! {

/// The layout version written into every checkpoint image.
pub const SCHEMA_VERSION: u32 = 1;

/// Bytes before the payload in a checkpoint image.
pub const HEADER_LEN: usize = 20;

/// How many checkpoints a store keeps unless told otherwise.
pub const DEFAULT_HISTORY: usize = 2;

/// Why the store refused or could not serve a request.
#[derive(PartialEq, Eq, Structural, Clone, Copy, Debug)]
pub enum StoreError {
    /// The storage could not be read or written.
    Io,
    /// No checkpoint passes its integrity check.
    Corrupt,
    /// The sequence number is not greater than the committed one.
    Stale,
}

/// A checkpoint read back from the store.
pub struct Checkpoint {
    pub sequence: u64,
    pub schema_version: u32,
    /// The jammed state.
    pub state: Vec<u8>,
    /// Some image held by the store failed its integrity check.
    pub fell_back: bool,
}

/// The image of a checkpoint.
pub open spec fn image(version: u32, seq: u64, payload: Seq<u8>) -> Seq<u8> {
    spec_u32_to_le_bytes(version) + spec_u64_to_le_bytes(seq) + spec_u64_to_le_bytes(
        payload.len() as u64,
    ) + payload
}

/// The payload of an image: what follows the header.
pub open spec fn payload_of(b: Seq<u8>) -> Seq<u8> {
    b.subrange(HEADER_LEN as int, b.len() as int)
}

/// The sequence number written in an image's header.
pub open spec fn image_seq(b: Seq<u8>) -> u64 {
    spec_u64_from_le_bytes(b.subrange(4, 12))
}

/// An image passes the integrity check when its header is complete, names
/// this schema, gives the payload's true length, and the payload decodes.
pub open spec fn image_ok(b: Seq<u8>) -> bool {
    &&& b.len() >= HEADER_LEN
    &&& spec_u32_from_le_bytes(b.subrange(0, 4)) == SCHEMA_VERSION
    &&& spec_u64_from_le_bytes(b.subrange(12, 20)) == b.len() - HEADER_LEN
    &&& decode(payload_of(b), DEFAULT_MAX_DEPTH as nat) is Ok
}

/// Among the first `n` images, the index of a valid one with the highest
/// sequence (the earliest such on a tie).
pub open spec fn best(s: Seq<Seq<u8>>, n: int) -> Option<int>
    decreases n,
{
    if n <= 0 {
        None
    } else {
        let prev = best(s, n - 1);
        if image_ok(s[n - 1]) && (prev is None || image_seq(s[n - 1]) > image_seq(s[prev->0])) {
            Some(n - 1)
        } else {
            prev
        }
    }
}

/// The index of the checkpoint that `load_latest` returns.
pub open spec fn latest(s: Seq<Seq<u8>>) -> Option<int> {
    best(s, s.len() as int)
}

/// The last `h` images, or all of them when there are fewer.
pub open spec fn keep_last(s: Seq<Seq<u8>>, h: nat) -> Seq<Seq<u8>> {
    if s.len() > h {
        s.subrange(s.len() - h, s.len() as int)
    } else {
        s
    }
}

/// The checkpoints of one directory, oldest first, and the committed sequence.
pub struct CheckpointStore {
    slots: Vec<Vec<u8>>,
    committed: Option<u64>,
    history: usize,
}

impl CheckpointStore {
    /// The images held, oldest first.
    pub closed spec fn images(&self) -> Seq<Seq<u8>> {
        self.slots@.map_values(|v: Vec<u8>| v@)
    }

    /// The highest sequence committed so far, if any.
    pub closed spec fn committed(&self) -> Option<u64> {
        self.committed
    }

    /// How many images a save keeps.
    pub closed spec fn history(&self) -> nat {
        self.history as nat
    }

    /// No valid image carries a sequence above the committed one, and there is
    /// a valid image only once something is committed.
    pub open spec fn wf(&self) -> bool {
        &&& self.history() >= 1
        &&& forall|i: int|
            0 <= i < self.images().len() && image_ok(#[trigger] self.images()[i]) ==> match self.committed() {
                Some(c) => image_seq(self.images()[i]) <= c,
                None => false,
            }
    }

    /// An empty store that keeps the newest `history` checkpoints.
    pub fn new(history: usize) -> (r: Self)
        requires
            history >= 1,
        ensures
            r.wf(),
            r.images() == Seq::<Seq<u8>>::empty(),
            r.committed() is None,
            r.history() == history,
    {
        let r = CheckpointStore { slots: Vec::new(), committed: None, history };
        assert(r.images() =~= Seq::<Seq<u8>>::empty());
        r
    }

    /// A store over images read back from storage, oldest first. The
    /// committed sequence is that of the latest valid image.
    pub fn open(files: Vec<Vec<u8>>, history: usize) -> (r: Self)
        requires
            history >= 1,
        ensures
            r.wf(),
            r.images() == files@.map_values(|v: Vec<u8>| v@),
            r.history() == history,
            r.committed() == match latest(r.images()) {
                Some(i) => Some(image_seq(r.images()[i])),
                None => None::<u64>,
            },
    {
        let s = CheckpointStore { slots: files, committed: None, history };
        let (idx, _) = s.scan();
        let ghost imgs = s.images();
        proof {
            lemma_best_is_max(imgs, imgs.len() as int);
        }
        let committed = match idx {
            Some(i) => {
                assert(imgs[i as int] == s.slots@[i as int]@);
                Some(read_u64_at(&s.slots[i], 4))
            },
            None => None,
        };
        let r = CheckpointStore { slots: s.slots, committed, history };
        assert(r.images() == imgs);
        r
    }

    /// Index of the latest valid image, and whether any image is invalid.
    fn scan(&self) -> (r: (Option<usize>, bool))
        ensures
            match latest(self.images()) {
                Some(i) => r.0 is Some && r.0->0 as int == i,
                None => r.0 is None,
            },
            r.0 is Some ==> r.0->0 < self.images().len() && image_ok(self.images()[r.0->0 as int]),
            r.1 == exists|i: int| 0 <= i < self.images().len() && !image_ok(#[trigger] self.images()[i]),
    {
        let mut best_idx: Option<usize> = None;
        let mut best_seq: u64 = 0;
        let mut bad = false;
        let mut i: usize = 0;
        let ghost imgs = self.images();
        while i < self.slots.len()
            invariant
                imgs == self.images(),
                imgs.len() == self.slots@.len(),
                i <= imgs.len(),
                match best(imgs, i as int) {
                    Some(k) => best_idx is Some && best_idx->0 as int == k && best_seq == image_seq(
                        imgs[k],
                    ),
                    None => best_idx is None,
                },
                bad == exists|j: int| 0 <= j < i && !image_ok(#[trigger] imgs[j]),
            decreases self.slots.len() - i,
        {
            proof {
                lemma_best_bounds(imgs, i as int + 1);
            }
            let ok = check_image(&self.slots[i]);
            if ok {
                let seq = read_u64_at(&self.slots[i], 4);
                if best_idx.is_none() || seq > best_seq {
                    best_idx = Some(i);
                    best_seq = seq;
                }
            } else {
                bad = true;
            }
            i = i + 1;
        }
        proof {
            lemma_best_bounds(imgs, imgs.len() as int);
        }
        (best_idx, bad)
    }

    /// Records a checkpoint of `state` under `sequence` and returns the image
    /// to publish. Fails with `Stale` when `sequence` is not greater than the
    /// committed sequence, changing nothing.
    pub fn save(&mut self, state: &Noun, sequence: u64) -> (r: Result<Vec<u8>, StoreError>)
        requires
            old(self).wf(),
        ensures
            final(self).wf(),
            final(self).history() == old(self).history(),
            match old(self).committed() {
                Some(c) if sequence <= c => r == Err::<Vec<u8>, StoreError>(StoreError::Stale)
                    && final(self).images() == old(self).images()
                    && final(self).committed() == old(self).committed(),
                _ => r is Ok && r->Ok_0@ == image(SCHEMA_VERSION, sequence, encode(state@))
                    && final(self).images() == keep_last(
                    old(self).images().push(r->Ok_0@),
                    old(self).history(),
                ) && final(self).committed() == Some(sequence),
            },
    {
        match self.committed {
            Some(c) => {
                if sequence <= c {
                    return Err(StoreError::Stale);
                }
            },
            None => {},
        }
        let payload = jam(state);
        let img = make_image(SCHEMA_VERSION, sequence, &payload);
        let ghost pre = self.images();
        proof {
            lemma_image_seq(SCHEMA_VERSION, sequence, payload@);
        }
        let out = copy_image(&img);
        self.slots.push(img);
        assert(self.images() =~= pre.push(out@));
        let ghost full = self.images();
        while self.slots.len() > self.history
            invariant
                self.history == old(self).history,
                self.history >= 1,
                full.len() >= self.slots@.len(),
                self.slots@.len() == full.len() || self.slots@.len() >= self.history,
                self.images() == full.subrange(full.len() - self.slots@.len(), full.len() as int),
            decreases self.slots.len(),
        {
            let ghost before = self.images();
            self.slots.remove(0);
            assert(self.images() =~= before.drop_first());
        }
        assert(self.images() =~= keep_last(full, self.history as nat));
        self.committed = Some(sequence);
        assert forall|i: int|
            0 <= i < self.images().len() && image_ok(#[trigger] self.images()[i]) implies image_seq(
                self.images()[i],
            ) <= sequence by {
            let j = i + full.len() - self.images().len();
            assert(self.images()[i] == full[j]);
            if j < pre.len() {
                assert(pre[j] == old(self).images()[j]);
            }
        }
        Ok(out)
    }

    /// The latest checkpoint that passes its integrity check; `None` when the
    /// store holds no image; `Corrupt` when it holds images and none is valid.
    pub fn load_latest(&self) -> (r: Result<Option<Checkpoint>, StoreError>)
        ensures
            match latest(self.images()) {
                Some(i) => r is Ok && r->Ok_0 is Some && {
                    let cp = r->Ok_0->0;
                    &&& cp.sequence == image_seq(self.images()[i])
                    &&& cp.schema_version == SCHEMA_VERSION
                    &&& cp.state@ == payload_of(self.images()[i])
                    &&& cp.fell_back == exists|j: int|
                        0 <= j < self.images().len() && !image_ok(#[trigger] self.images()[j])
                },
                None => if self.images().len() == 0 {
                    r is Ok && r->Ok_0 is None
                } else {
                    r == Err::<Option<Checkpoint>, StoreError>(StoreError::Corrupt)
                },
            },
    {
        let (idx, bad) = self.scan();
        match idx {
            Some(i) => {
                assert(self.images()[i as int] == self.slots@[i as int]@);
                let img = &self.slots[i];
                let sequence = read_u64_at(img, 4);
                let state = copy_payload(img);
                Ok(Some(Checkpoint { sequence, schema_version: SCHEMA_VERSION, state, fell_back: bad }))
            },
            None => {
                if self.slots.len() == 0 {
                    Ok(None)
                } else {
                    Err(StoreError::Corrupt)
                }
            },
        }
    }

    /// The highest sequence committed so far, if any.
    pub fn committed_sequence(&self) -> (r: Option<u64>)
        ensures
            r == self.committed(),
    {
        self.committed
    }

    /// The number of images held.
    pub fn len(&self) -> (r: usize)
        ensures
            r == self.images().len(),
    {
        self.slots.len()
    }
}

proof fn lemma_image_seq(v: u32, seq: u64, p: Seq<u8>)
    ensures
        image_seq(image(v, seq, p)) == seq,
        image(v, seq, p).len() == HEADER_LEN + p.len(),
{
    vstd::bytes::lemma_auto_spec_u64_to_from_le_bytes();
    vstd::bytes::lemma_auto_spec_u32_to_from_le_bytes();
    assert(image(v, seq, p).subrange(4, 12) =~= spec_u64_to_le_bytes(seq));
}

proof fn lemma_best_bounds(s: Seq<Seq<u8>>, n: int)
    ensures
        best(s, n) is Some ==> 0 <= best(s, n)->0 < n && image_ok(s[best(s, n)->0]),
    decreases n,
{
    if n > 0 {
        lemma_best_bounds(s, n - 1);
    }
}

/// The image that `best` picks carries the highest sequence of all valid
/// images among the first `n`, and it is absent only when none is valid.
pub proof fn lemma_best_is_max(s: Seq<Seq<u8>>, n: int)
    requires
        n <= s.len(),
    ensures
        best(s, n) is Some ==> 0 <= best(s, n)->0 < n && image_ok(s[best(s, n)->0]),
        forall|i: int|
            0 <= i < n && image_ok(#[trigger] s[i]) ==> best(s, n) is Some && image_seq(s[i])
                <= image_seq(s[best(s, n)->0]),
    decreases n,
{
    lemma_best_bounds(s, n);
    if n > 0 {
        lemma_best_is_max(s, n - 1);
    }
}

fn read_u64_at(b: &Vec<u8>, pos: usize) -> (r: u64)
    requires
        pos + 8 <= b@.len(),
    ensures
        r == spec_u64_from_le_bytes(b@.subrange(pos as int, pos + 8)),
{
    let len = b.len();
    assert(pos + 8 <= len);
    let s = vstd::slice::slice_subrange(b.as_slice(), pos, pos + 8);
    u64_from_le_bytes(s)
}

fn copy_image(b: &Vec<u8>) -> (r: Vec<u8>)
    ensures
        r@ == b@,
{
    crate::noun::copy_bytes(b)
}

fn copy_payload(b: &Vec<u8>) -> (r: Vec<u8>)
    requires
        b@.len() >= HEADER_LEN,
    ensures
        r@ == payload_of(b@),
{
    let mut r: Vec<u8> = Vec::new();
    let mut i: usize = HEADER_LEN;
    while i < b.len()
        invariant
            HEADER_LEN <= i <= b@.len(),
            r@ == b@.subrange(HEADER_LEN as int, i as int),
        decreases b.len() - i,
    {
        r.push(b[i]);
        i = i + 1;
        assert(r@ =~= b@.subrange(HEADER_LEN as int, i as int));
    }
    r
}

fn make_image(version: u32, seq: u64, payload: &Vec<u8>) -> (r: Vec<u8>)
    ensures
        r@ == image(version, seq, payload@),
{
    let mut out = u32_to_le_bytes(version);
    let s = u64_to_le_bytes(seq);
    push_all(&mut out, s.as_slice());
    let l = u64_to_le_bytes(payload.len() as u64);
    push_all(&mut out, l.as_slice());
    push_all(&mut out, payload.as_slice());
    out
}

/// Whether an image passes the integrity check.
pub fn check_image(b: &Vec<u8>) -> (r: bool)
    ensures
        r == image_ok(b@),
{
    if b.len() < HEADER_LEN {
        return false;
    }
    let vs = vstd::slice::slice_subrange(b.as_slice(), 0, 4);
    let version = u32_from_le_bytes(vs);
    if version != SCHEMA_VERSION {
        return false;
    }
    let plen = read_u64_at(b, 12);
    if plen != (b.len() - HEADER_LEN) as u64 {
        return false;
    }
    let payload = copy_payload(b);
    cue(payload.as_slice()).is_ok()
}

/// The image of a valid state whose cells nest at most the default depth
/// passes the integrity check, and carries its sequence and state.
pub proof fn lemma_image_ok(seq: u64, n: Noun)
    requires
        n.wf(),
        depth(n@) <= DEFAULT_MAX_DEPTH,
        encode(n@).len() <= u64::MAX,
    ensures
        image_ok(image(SCHEMA_VERSION, seq, encode(n@))),
        image_seq(image(SCHEMA_VERSION, seq, encode(n@))) == seq,
        payload_of(image(SCHEMA_VERSION, seq, encode(n@))) == encode(n@),
        decode(payload_of(image(SCHEMA_VERSION, seq, encode(n@))), DEFAULT_MAX_DEPTH as nat)
            == Ok::<Tree, crate::codec::DecodeError>(n@),
{
    vstd::bytes::lemma_auto_spec_u64_to_from_le_bytes();
    vstd::bytes::lemma_auto_spec_u32_to_from_le_bytes();
    let p = encode(n@);
    let b = image(SCHEMA_VERSION, seq, p);
    assert(b.subrange(0, 4) =~= spec_u32_to_le_bytes(SCHEMA_VERSION));
    assert(b.subrange(4, 12) =~= spec_u64_to_le_bytes(seq));
    assert(b.subrange(12, 20) =~= spec_u64_to_le_bytes(p.len() as u64));
    assert(payload_of(b) =~= p);
    lemma_cue_jam(n, DEFAULT_MAX_DEPTH as nat);
}

} // verus!

verus! {

/// `load_latest` returns a checkpoint exactly when some image passes its
/// integrity check, and it has the highest sequence of all those that do.
pub proof fn lemma_latest_is_highest(s: Seq<Seq<u8>>)
    ensures
        latest(s) is Some <==> exists|i: int| 0 <= i < s.len() && image_ok(#[trigger] s[i]),
        latest(s) is Some ==> 0 <= latest(s)->0 < s.len() && image_ok(s[latest(s)->0]),
        forall|i: int|
            0 <= i < s.len() && image_ok(#[trigger] s[i]) ==> image_seq(s[i]) <= image_seq(
                s[latest(s)->0],
            ),
{
    lemma_best_is_max(s, s.len() as int);
}

/// After a successful `save` of a valid state, the latest checkpoint is the
/// one just saved, and its payload decodes to that state: a store reopened
/// over the same images after a crash restores exactly this state.
pub proof fn lemma_recover_saved(
    before: Seq<Seq<u8>>,
    committed: Option<u64>,
    history: nat,
    n: Noun,
    seq: u64,
)
    requires
        history >= 1,
        forall|i: int|
            0 <= i < before.len() && image_ok(#[trigger] before[i]) ==> match committed {
                Some(c) => image_seq(before[i]) <= c,
                None => false,
            },
        match committed {
            Some(c) => seq > c,
            None => true,
        },
        n.wf(),
        depth(n@) <= DEFAULT_MAX_DEPTH,
        encode(n@).len() <= u64::MAX,
    ensures
        ({
            let after = keep_last(before.push(image(SCHEMA_VERSION, seq, encode(n@))), history);
            &&& latest(after) == Some(after.len() - 1)
            &&& image_seq(after[after.len() - 1]) == seq
            &&& decode(payload_of(after[after.len() - 1]), DEFAULT_MAX_DEPTH as nat) == Ok::<
                Tree,
                crate::codec::DecodeError,
            >(n@)
        }),
{
    let img = image(SCHEMA_VERSION, seq, encode(n@));
    let full = before.push(img);
    let after = keep_last(full, history);
    lemma_image_ok(seq, n);
    let k = after.len() - 1;
    assert(after[k] == img);
    lemma_best_bounds(after, k);
    if best(after, k) is Some {
        let j = best(after, k)->0;
        let fj = j + full.len() - after.len();
        assert(after[j] == full[fj]);
        assert(full[fj] == before[fj]);
    }
}

} // verus!
