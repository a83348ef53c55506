//! The tokens of a split, end to end, and what is known of them.

use vstd::prelude::*;

verus! {

/// What a split holds.
#[derive(Debug, Clone, Copy)]
pub struct Meta {
    pub tokens: u64,
    pub docs: u64,
    /// Bytes of the source text.
    pub bytes: u64,
    pub vocab_size: usize,
    pub eos: u16,
}

impl Meta {
    /// A split that holds nothing.
    pub fn new(vocab_size: usize, eos: u16) -> (r: Self)
        ensures
            r == (Meta { tokens: 0, docs: 0, bytes: 0, vocab_size, eos }),
    {
        Meta { tokens: 0, docs: 0, bytes: 0, vocab_size, eos }
    }

    /// One document more can be counted.
    pub open spec fn has_room(self, tokens: int, bytes: int) -> bool {
        &&& self.tokens + tokens <= u64::MAX
        &&& self.docs < u64::MAX
        &&& self.bytes + bytes <= u64::MAX
    }

    /// Count one document.
    pub fn record(&mut self, tokens: usize, bytes: usize)
        requires
            old(self).has_room(tokens as int, bytes as int),
        ensures
            *final(self) == (Meta {
                tokens: (old(self).tokens + tokens) as u64,
                docs: (old(self).docs + 1) as u64,
                bytes: (old(self).bytes + bytes) as u64,
                ..*old(self)
            }),
    {
        self.tokens = self.tokens + tokens as u64;
        self.docs = self.docs + 1;
        self.bytes = self.bytes + bytes as u64;
    }
}

/// A split that is being written.
pub struct Writer {
    pub tokens: Vec<u16>,
    pub meta: Meta,
}

impl Writer {
    /// The count agrees with what was written.
    pub open spec fn well_formed(self) -> bool {
        self.meta.tokens == self.tokens@.len()
    }

    /// A split with nothing written yet.
    pub fn create(vocab_size: usize, eos: u16) -> (r: Self)
        ensures
            r.well_formed(),
            r.tokens@ == Seq::<u16>::empty(),
            r.meta == (Meta { tokens: 0, docs: 0, bytes: 0, vocab_size, eos }),
    {
        Writer { tokens: Vec::new(), meta: Meta::new(vocab_size, eos) }
    }

    /// Write one document of `bytes` bytes.
    pub fn push(&mut self, ids: &Vec<u16>, bytes: usize)
        requires
            old(self).well_formed(),
            old(self).meta.has_room(ids@.len() as int, bytes as int),
        ensures
            final(self).well_formed(),
            final(self).tokens@ == old(self).tokens@ + ids@,
            final(self).meta == (Meta {
                tokens: (old(self).meta.tokens + ids@.len()) as u64,
                docs: (old(self).meta.docs + 1) as u64,
                bytes: (old(self).meta.bytes + bytes) as u64,
                ..old(self).meta
            }),
    {
        self.tokens.extend_from_slice(ids.as_slice());
        assert(self.tokens@ =~= old(self).tokens@ + ids@);
        self.meta.record(ids.len(), bytes);
    }

    /// The finished split.
    pub fn finish(self) -> (r: Shards)
        requires
            self.well_formed(),
        ensures
            r.well_formed(),
            r.tokens == self.tokens,
            r.meta == self.meta,
    {
        Shards { tokens: self.tokens, meta: self.meta }
    }
}

/// A finished split.
pub struct Shards {
    pub tokens: Vec<u16>,
    pub meta: Meta,
}

impl Shards {
    /// The count agrees with what is there.
    pub open spec fn well_formed(self) -> bool {
        self.meta.tokens == self.tokens@.len()
    }

    /// How many tokens there are.
    pub fn len(&self) -> (r: usize)
        ensures
            r == self.tokens@.len(),
            self.well_formed() ==> r == self.meta.tokens,
    {
        self.tokens.len()
    }

    /// What is known of the split.
    pub fn meta(&self) -> (r: Meta)
        ensures
            r == self.meta,
    {
        self.meta
    }

    /// The `count` tokens from `start` on.
    pub fn read(&self, start: usize, count: usize) -> (window: Vec<u16>)
        requires
            start + count <= self.tokens@.len(),
        ensures
            window@ == self.tokens@.subrange(start as int, start + count),
    {
        let mut window: Vec<u16> = Vec::new();
        assert(self.tokens.len() <= usize::MAX);
        let end: usize = start + count;
        let mut i: usize = start;
        while i < end
            invariant
                start <= i <= end <= self.tokens@.len(),
                window@ == self.tokens@.subrange(start as int, i as int),
            decreases end - i,
        {
            window.push(self.tokens[i]);
            i = i + 1;
            assert(window@ =~= self.tokens@.subrange(start as int, i as int));
        }
        window
    }
}

/// A document that is written goes behind all that was, token for token, and is
/// counted once, with its tokens and its bytes. What was written stays.
pub proof fn documents_are_written_behind_one_another(ids: Vec<u16>, bytes: usize)
    ensures
        forall|w: &mut Writer|
            w.well_formed() && w.meta.has_room(ids@.len() as int, bytes as int)
                && #[trigger] call_ensures(Writer::push, (w, &ids, bytes), ()) ==> {
                let n = w.tokens@.len() as int;
                &&& final(w).tokens@.len() == n + ids@.len()
                &&& final(w).tokens@.take(n) == w.tokens@
                &&& final(w).tokens@.skip(n) == ids@
                &&& final(w).meta.tokens == w.meta.tokens + ids@.len()
                &&& final(w).meta.docs == w.meta.docs + 1
                &&& final(w).meta.bytes == w.meta.bytes + bytes
                &&& final(w).meta.vocab_size == w.meta.vocab_size
                &&& final(w).meta.eos == w.meta.eos
            },
{
    assert forall|w: &mut Writer|
        w.well_formed() && w.meta.has_room(ids@.len() as int, bytes as int)
            && #[trigger] call_ensures(Writer::push, (w, &ids, bytes), ()) implies {
        let n = w.tokens@.len() as int;
        &&& final(w).tokens@.take(n) == w.tokens@
        &&& final(w).tokens@.skip(n) == ids@
    } by {
        let n = w.tokens@.len() as int;
        assert(final(w).tokens@.take(n) =~= w.tokens@);
        assert(final(w).tokens@.skip(n) =~= ids@);
    }
}

/// A split holds nothing at first, and what was written once it is finished; a
/// window of it is its tokens from there on.
pub proof fn splits_hold_what_was_written(
    vocab_size: usize,
    eos: u16,
    fresh: Writer,
    w: Writer,
    s: Shards,
    start: usize,
    count: usize,
    window: Vec<u16>,
    i: int,
)
    requires
        call_ensures(Writer::create, (vocab_size, eos), fresh),
        call_ensures(Writer::finish, (w,), s),
        call_ensures(Shards::read, (&s, start, count), window),
        start + count <= s.tokens@.len(),
        0 <= i < count,
    ensures
        fresh.tokens@.len() == 0,
        fresh.meta.tokens == 0,
        fresh.meta.docs == 0,
        fresh.meta.bytes == 0,
        fresh.meta.vocab_size == vocab_size,
        fresh.meta.eos == eos,
        s.tokens@ == w.tokens@,
        s.meta == w.meta,
        window@.len() == count,
        window@[i] == s.tokens@[start + i],
{
}

} // verus!
