use vstd::prelude::*;

verus! {

/// One step of the generator: from the current key and cursor, the next key
/// and cursor. When the cursor has run off the alphabet, the key first grows
/// by one byte and the cursor wraps; the last byte of the key then becomes
/// the alphabet byte under the cursor.
pub open spec fn generator_step(alphabet: Seq<u8>, key: Seq<u8>, cursor: int) -> (Seq<u8>, int) {
    let (grown, wrapped) = if cursor == alphabet.len() {
        (key.push(0u8), 0)
    } else {
        (key, cursor)
    };
    (grown.update(grown.len() - 1, alphabet[wrapped]), wrapped + 1)
}

/// The generator's state — its key and cursor — after `calls` calls, starting
/// from the empty key with the cursor run off the alphabet.
pub open spec fn generator_state(alphabet: Seq<u8>, calls: int) -> (Seq<u8>, int)
    decreases calls,
{
    if calls <= 0 {
        (Seq::<u8>::empty(), alphabet.len() as int)
    } else {
        let (key, cursor) = generator_state(alphabet, calls - 1);
        generator_step(alphabet, key, cursor)
    }
}

/// Enumerates keys over a fixed alphabet for the demonstration workload:
/// every alphabet byte in turn at the last position, the key growing by one
/// byte each time the alphabet wraps around.
pub struct BytesGenerator<'a> {
    alphabet: &'a [u8],
    next_index: usize,
    current: Vec<u8>,
}

impl<'a> BytesGenerator<'a> {
    /// The generator's alphabet.
    pub closed spec fn alphabet_spec(&self) -> Seq<u8> {
        self.alphabet@
    }

    /// The key most recently handed out, empty before the first call.
    pub closed spec fn key_spec(&self) -> Seq<u8> {
        self.current@
    }

    /// Where in the alphabet the next call will read.
    pub closed spec fn cursor(&self) -> int {
        self.next_index as int
    }

    /// A nonempty alphabet, a cursor within it, and a key that is only empty
    /// before the first call.
    pub closed spec fn wf(&self) -> bool {
        &&& self.alphabet@.len() > 0
        &&& self.next_index <= self.alphabet@.len()
        &&& (self.current@.len() == 0 ==> self.next_index == self.alphabet@.len())
    }

    /// A fresh generator over `alphabet`: no key yet, cursor at the end so
    /// that the first call grows the key and wraps.
    pub fn new(alphabet: &'a [u8]) -> (g: Self)
        requires
            alphabet@.len() > 0,
        ensures
            g.wf(),
            g.alphabet_spec() == alphabet@,
            (g.key_spec(), g.cursor()) == generator_state(alphabet@, 0),
    {
        BytesGenerator { alphabet, next_index: alphabet.len(), current: Vec::new() }
    }

    /// Advances the generator by one step and hands out the new key.
    pub fn next_bytes(&mut self) -> (r: &[u8])
        requires
            old(self).wf(),
        ensures
            final(self).wf(),
            final(self).alphabet_spec() == old(self).alphabet_spec(),
            (final(self).key_spec(), final(self).cursor()) == generator_step(
                old(self).alphabet_spec(),
                old(self).key_spec(),
                old(self).cursor(),
            ),
            r@ == final(self).key_spec(),
    {
        if self.next_index == self.alphabet.len() {
            self.next_index = 0;
            self.current.push(0);
        }
        let index = self.current.len() - 1;
        let last = &mut self.current[index];
        *last = self.alphabet[self.next_index];
        self.next_index = self.next_index + 1;
        self.current.as_slice()
    }
}

/// The first `n` keys the generator yields over `alphabet`, each paired with
/// its position in the stream: the insertion workload of the demonstration
/// program.
pub fn insertion_data(alphabet: &[u8], n: usize) -> (data: Vec<(Vec<u8>, usize)>)
    requires
        alphabet@.len() > 0,
    ensures
        data@.len() == n,
        forall|i: int| #![trigger data@[i]]
            0 <= i < n ==> data@[i].1 == i && data@[i].0@ == generator_state(alphabet@, i + 1).0,
{
    let mut generator = BytesGenerator::new(alphabet);
    let mut data: Vec<(Vec<u8>, usize)> = Vec::new();
    let mut i: usize = 0;
    while i < n
        invariant
            i <= n,
            generator.wf(),
            generator.alphabet_spec() == alphabet@,
            (generator.key_spec(), generator.cursor()) == generator_state(alphabet@, i as int),
            data@.len() == i,
            forall|j: int| #![trigger data@[j]]
                0 <= j < i ==> data@[j].1 == j && data@[j].0@ == generator_state(
                    alphabet@,
                    j + 1,
                ).0,
        decreases n - i,
    {
        let key = generator.next_bytes();
        let owned = vstd::slice::slice_to_vec(key);
        data.push((owned, i));
        i += 1;
    }
    data
}

} // verus!
