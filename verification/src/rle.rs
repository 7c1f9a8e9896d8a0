//! Run-length coding of glyph rasters.
//!
//! A stream is a byte sequence of `[count, value]` pairs; each pair stands for
//! `count` samples equal to `value`, in row-major order. A single byte left over
//! at the end of a stream belongs to no pair and stands for nothing.

use vstd::prelude::*;

verus! {

/// The samples one `[count, value]` pair stands for.
pub open spec fn run(count: u8, value: u8) -> Seq<u8> {
    Seq::new(count as nat, |i: int| value)
}

/// The samples a stream stands for.
pub open spec fn decode(stream: Seq<u8>) -> Seq<u8>
    decreases stream.len(),
{
    if stream.len() < 2 {
        Seq::empty()
    } else {
        run(stream[0], stream[1]) + decode(stream.skip(2))
    }
}

/// The sample at `index` of what `stream` stands for; 0 where the stream has no
/// such sample.
pub open spec fn sample_at(stream: Seq<u8>, index: int) -> u8 {
    if 0 <= index < decode(stream).len() {
        decode(stream)[index]
    } else {
        0u8
    }
}

/// How many samples at the front of `data` equal the first one, counting at
/// most `cap` of them.
pub open spec fn leading_run(data: Seq<u8>, cap: nat) -> nat
    decreases cap,
{
    if cap == 0 || data.len() == 0 {
        0
    } else if data.len() >= 2 && data[1] == data[0] {
        1 + leading_run(data.skip(1), (cap - 1) as nat)
    } else {
        1
    }
}

/// The greedy encoding of `data`: each pair takes the longest run at the front
/// of what is left, up to 255 samples.
pub open spec fn encode(data: Seq<u8>) -> Seq<u8>
    decreases data.len(),
{
    if data.len() == 0 {
        Seq::empty()
    } else {
        let n = leading_run(data, 255);
        if 1 <= n <= data.len() {
            seq![n as u8, data[0]] + encode(data.skip(n as int))
        } else {
            Seq::empty()
        }
    }
}

/// A stream that ends on a pair boundary decodes piecewise.
pub proof fn lemma_decode_concat(a: Seq<u8>, b: Seq<u8>)
    requires
        a.len() % 2 == 0,
    ensures
        decode(a + b) == decode(a) + decode(b),
    decreases a.len(),
{
    if a.len() == 0 {
        assert(a + b =~= b);
        assert(decode(a) + decode(b) =~= decode(b));
    } else {
        assert((a + b).skip(2) =~= a.skip(2) + b);
        lemma_decode_concat(a.skip(2), b);
        assert(decode(a + b) =~= decode(a) + decode(b));
    }
}

/// One pair decodes to its run.
pub proof fn lemma_decode_pair(count: u8, value: u8)
    ensures
        decode(seq![count, value]) == run(count, value),
{
    let s = seq![count, value];
    assert(s.skip(2) =~= Seq::<u8>::empty());
    assert(decode(s.skip(2)) =~= Seq::<u8>::empty());
    assert(decode(s) =~= run(count, value));
}

/// Less than a pair decodes to nothing.
pub proof fn lemma_decode_short(stream: Seq<u8>)
    requires
        stream.len() < 2,
    ensures
        decode(stream) == Seq::<u8>::empty(),
{
}

/// The pair that ends at the even offset `i` covers the samples from
/// `decode(stream.take(i - 2)).len()` on, as many as its count says.
pub proof fn lemma_pair_covers(stream: Seq<u8>, i: int)
    requires
        2 <= i <= stream.len(),
        i % 2 == 0,
    ensures
        decode(stream.take(i)) == decode(stream.take(i - 2)) + run(stream[i - 2], stream[i - 1]),
        decode(stream.take(i)).len() == decode(stream.take(i - 2)).len() + stream[i - 2],
        decode(stream.take(i)).len() <= decode(stream).len(),
        forall|t: int|
            decode(stream.take(i - 2)).len() <= t < decode(stream.take(i)).len()
                ==> #[trigger] decode(stream)[t] == stream[i - 1],
{
    let before = stream.take(i - 2);
    let pair = seq![stream[i - 2], stream[i - 1]];
    let rest = stream.skip(i);
    assert(stream.take(i) =~= before + pair);
    assert(stream =~= stream.take(i) + rest);
    lemma_decode_concat(before, pair);
    lemma_decode_pair(stream[i - 2], stream[i - 1]);
    lemma_decode_concat(stream.take(i), rest);
    assert(decode(stream.take(i)) == decode(before) + run(stream[i - 2], stream[i - 1]));
    assert(decode(stream) == decode(stream.take(i)) + decode(rest));
    assert forall|t: int|
        decode(before).len() <= t < decode(stream.take(i)).len() implies #[trigger] decode(
        stream,
    )[t] == stream[i - 1] by {
        assert(decode(stream)[t] == decode(stream.take(i))[t]);
        assert(decode(stream.take(i))[t] == run(stream[i - 2], stream[i - 1])[t - decode(
            before,
        ).len()]);
    }
}

/// Once fewer than two bytes are left after the even offset `i`, the pairs
/// before `i` are the whole stream.
pub proof fn lemma_tail_is_empty(stream: Seq<u8>, i: int)
    requires
        0 <= i <= stream.len(),
        i % 2 == 0,
        stream.len() - i < 2,
    ensures
        decode(stream) == decode(stream.take(i)),
{
    let rest = stream.skip(i);
    assert(stream =~= stream.take(i) + rest);
    lemma_decode_concat(stream.take(i), rest);
    assert(decode(rest) =~= Seq::<u8>::empty());
    assert(decode(stream.take(i)) + decode(rest) =~= decode(stream.take(i)));
}

/// The first run of a non-empty sequence has between 1 and `cap` samples, all
/// equal to the first.
pub proof fn lemma_leading_run(data: Seq<u8>, cap: nat)
    requires
        data.len() > 0,
        cap > 0,
    ensures
        1 <= leading_run(data, cap) <= cap,
        leading_run(data, cap) <= data.len(),
        forall|j: int| 0 <= j < leading_run(data, cap) ==> #[trigger] data[j] == data[0],
    decreases cap,
{
    if data.len() >= 2 && data[1] == data[0] && cap >= 2 {
        let rest = data.skip(1);
        lemma_leading_run(rest, (cap - 1) as nat);
        assert forall|j: int| 0 <= j < leading_run(data, cap) implies #[trigger] data[j]
            == data[0] by {
            if j > 0 {
                assert(data[j] == rest[j - 1]);
            }
        }
    } else if data.len() >= 2 && data[1] == data[0] {
        assert(leading_run(data.skip(1), 0) == 0);
    }
}

/// Decoding undoes encoding.
pub proof fn lemma_round_trip(data: Seq<u8>)
    ensures
        decode(encode(data)) == data,
    decreases data.len(),
{
    if data.len() == 0 {
        assert(decode(encode(data)) =~= data);
    } else {
        let n = leading_run(data, 255);
        lemma_leading_run(data, 255);
        let head = seq![n as u8, data[0]];
        let rest = data.skip(n as int);
        lemma_round_trip(rest);
        lemma_decode_concat(head, encode(rest));
        lemma_decode_pair(n as u8, data[0]);
        assert(decode(encode(data)) == run(n as u8, data[0]) + rest);
        assert(run(n as u8, data[0]) + rest =~= data);
    }
}

/// Reading an encoded raster by index gives the raster back: the sample at
/// every index of `data` is found again in `encode(data)`.
pub proof fn lemma_encoded_sample(data: Seq<u8>, index: int)
    requires
        0 <= index < data.len(),
    ensures
        sample_at(encode(data), index) == data[index],
{
    lemma_round_trip(data);
}

/// A stream without a pair has the sample 0 at every index.
pub proof fn lemma_empty_stream(stream: Seq<u8>, index: int)
    requires
        stream.len() < 2,
    ensures
        sample_at(stream, index) == 0,
{
}

/// An encoding is made of whole pairs, and no pair is empty.
pub proof fn lemma_encode_pairs(data: Seq<u8>)
    ensures
        encode(data).len() % 2 == 0,
        forall|k: int| 0 <= k < encode(data).len() / 2 ==> #[trigger] encode(data)[2 * k] >= 1,
    decreases data.len(),
{
    if data.len() > 0 {
        let n = leading_run(data, 255);
        lemma_leading_run(data, 255);
        let head = seq![n as u8, data[0]];
        let rest = data.skip(n as int);
        lemma_encode_pairs(rest);
        assert(encode(data) == head + encode(rest));
        assert forall|k: int| 0 <= k < encode(data).len() / 2 implies #[trigger] encode(data)[2
            * k] >= 1 by {
            if k > 0 {
                assert(encode(data)[2 * k] == encode(rest)[2 * (k - 1)]);
            }
        }
    }
}

/// Encodes a raster: the greedy run-length encoding, runs of at most 255.
pub fn rle_encode(data: Vec<u8>) -> (encoded: Vec<u8>)
    ensures
        encoded@ == encode(data@),
{
    let mut encoded: Vec<u8> = Vec::new();
    let n = data.len();
    let mut pos: usize = 0;
    proof {
        assert(data@.skip(0) =~= data@);
    }
    while pos < n
        invariant
            pos <= n,
            n == data@.len(),
            encode(data@) == encoded@ + encode(data@.skip(pos as int)),
        decreases n - pos,
    {
        let value = data[pos];
        let mut count: u8 = 1;
        let ghost left = data@.skip(pos as int);
        proof {
            assert(left.skip(0) =~= left);
        }
        while count < u8::MAX && pos + (count as usize) < n && data[pos + (count as usize)] == value
            invariant
                1 <= count <= 255,
                pos + count <= n,
                n == data@.len(),
                left == data@.skip(pos as int),
                value == data@[pos as int],
                data@[pos + count - 1] == value,
                leading_run(left, 255) == (count - 1) + leading_run(
                    left.skip(count - 1),
                    (256 - count) as nat,
                ),
            decreases 255 - count,
        {
            proof {
                let here = left.skip(count - 1);
                assert(here[0] == value);
                assert(here[1] == value);
                assert(here.skip(1) =~= left.skip(count as int));
            }
            count = count + 1;
        }
        proof {
            let here = left.skip(count - 1);
            assert(here[0] == value);
            if count == 255 {
                if here.len() >= 2 && here[1] == here[0] {
                    assert(leading_run(here.skip(1), 0) == 0);
                }
            } else if pos + count < n {
                assert(here[1] == data@[pos + count]);
            }
            assert(leading_run(left, 255) == count);
            assert(left.skip(count as int) =~= data@.skip(pos + count));
            assert(encode(left) == seq![count, value] + encode(left.skip(count as int)));
            assert(encoded@.push(count).push(value) + encode(data@.skip(pos + count))
                =~= encoded@ + encode(left));
        }
        encoded.push(count);
        encoded.push(value);
        pos = pos + count as usize;
    }
    proof {
        assert(encoded@ + encode(data@.skip(pos as int)) =~= encoded@);
    }
    encoded
}

/// Decodes a whole stream.
pub fn rle_decode(stream: &[u8]) -> (samples: Vec<u8>)
    ensures
        samples@ == decode(stream@),
{
    let mut samples: Vec<u8> = Vec::new();
    let len = stream.len();
    let mut i: usize = 0;
    proof {
        assert(stream@.take(0) =~= Seq::<u8>::empty());
    }
    while len - i >= 2
        invariant
            i <= len,
            len == stream@.len(),
            i % 2 == 0,
            samples@ == decode(stream@.take(i as int)),
        decreases len - i,
    {
        let count = stream[i];
        let value = stream[i + 1];
        let ghost before = samples@;
        let mut k: u8 = 0;
        while k < count
            invariant
                k <= count,
                samples@ == before + run(k, value),
            decreases count - k,
        {
            samples.push(value);
            k = k + 1;
            proof {
                assert(samples@ =~= before + run(k, value));
            }
        }
        proof {
            lemma_pair_covers(stream@, i + 2);
        }
        i = i + 2;
    }
    proof {
        lemma_tail_is_empty(stream@, i as int);
    }
    samples
}

/// The sample at `index` of what `buffer` stands for; 0 where it has no such
/// sample. Reads the stream from its start.
pub fn rle_decode_at(buffer: &[u8], index: usize) -> (value: u8)
    ensures
        value == sample_at(buffer@, index as int),
{
    let len = buffer.len();
    let mut i: usize = 0;
    let mut decoded_index: usize = 0;
    proof {
        assert(buffer@.take(0) =~= Seq::<u8>::empty());
    }
    while len - i >= 2
        invariant
            i <= len,
            len == buffer@.len(),
            i % 2 == 0,
            decoded_index == decode(buffer@.take(i as int)).len(),
            decoded_index <= index,
        decreases len - i,
    {
        let count = buffer[i] as usize;
        let value = buffer[i + 1];
        proof {
            lemma_pair_covers(buffer@, i + 2);
        }
        if count > index - decoded_index {
            return value;
        }
        decoded_index = decoded_index + count;
        i = i + 2;
    }
    proof {
        lemma_tail_is_empty(buffer@, i as int);
    }
    0
}

/// A forward cursor over a stream. It keeps the pair it last read, so that
/// samples asked for in non-decreasing order cost one pass over the stream in
/// all; a sample before the current pair is found by starting over.
#[derive(Clone, Copy)]
pub struct RleCursor<'a> {
    buf: &'a [u8],
    i: usize,
    run_c: usize,
    val: u8,
    dec: usize,
}

impl<'a> RleCursor<'a> {
    /// The stream the cursor reads.
    pub closed spec fn stream(&self) -> Seq<u8> {
        self.buf@
    }

    /// The value of the pair the cursor stands on; 0 before the first pair and
    /// after the last.
    pub closed spec fn value(&self) -> u8 {
        self.val
    }

    /// The index of the first sample of the pair the cursor stands on.
    pub closed spec fn run_start(&self) -> nat {
        self.dec as nat
    }

    /// How many bytes of the stream the cursor has read.
    pub closed spec fn offset(&self) -> nat {
        self.i as nat
    }

    /// No pair has been read yet.
    spec fn fresh(self) -> bool {
        &&& self.i == 0
        &&& self.run_c == 0
        &&& self.val == 0
        &&& self.dec == 0
    }

    /// The pair that ends at offset `i` is the current one.
    spec fn loaded(self) -> bool {
        &&& 2 <= self.i <= self.buf@.len()
        &&& self.i % 2 == 0
        &&& self.run_c == self.buf@[self.i - 2]
        &&& self.val == self.buf@[self.i - 1]
        &&& self.dec == decode(self.buf@.take(self.i - 2)).len()
    }

    /// Every pair has been passed.
    spec fn exhausted(self) -> bool {
        &&& self.i == self.buf@.len()
        &&& self.run_c == 0
        &&& self.val == 0
        &&& self.dec == decode(self.buf@).len()
    }

    /// What holds of every cursor: it stands before the first pair, on a
    /// pair, or behind the last one, and knows how many samples lie before.
    #[verifier::type_invariant]
    spec fn inv(self) -> bool {
        self.fresh() || self.loaded() || self.exhausted()
    }

    /// A cursor on the first pair of `buf`.
    pub fn new(buf: &'a [u8]) -> (c: Self)
        ensures
            c.stream() == buf@,
            c.run_start() == 0,
            c.offset() <= 2,
            c.value() == (if buf@.len() >= 2 {
                buf@[1]
            } else {
                0u8
            }),
    {
        let mut c = RleCursor { buf, i: 0, run_c: 0, val: 0, dec: 0 };
        c.load_next_run();
        c
    }

    /// Reads the next pair, or marks the stream as exhausted.
    fn load_next_run(&mut self)
        requires
            old(self).dec + old(self).run_c <= usize::MAX,
        ensures
            final(self).buf@ == old(self).buf@,
            final(self).dec == old(self).dec + old(self).run_c,
            final(self).i >= old(self).i,
            old(self).buf@.len() - old(self).i >= 2 ==> {
                &&& final(self).i == old(self).i + 2
                &&& final(self).loaded()
            },
            old(self).buf@.len() - old(self).i < 2 ==> {
                &&& final(self).i == old(self).buf@.len()
                &&& final(self).run_c == 0
                &&& final(self).val == 0
            },
    {
        proof {
            use_type_invariant(&*self);
        }
        let len = self.buf.len();
        let ghost s = self.buf@;
        let ghost i = self.i as int;
        if len - self.i >= 2 {
            let count = self.buf[self.i] as usize;
            let value = self.buf[self.i + 1];
            proof {
                if self.loaded() {
                    lemma_pair_covers(s, i);
                } else if self.exhausted() {
                } else {
                    assert(s.take(0) =~= Seq::<u8>::empty());
                }
            }
            *self = RleCursor {
                buf: self.buf,
                i: self.i + 2,
                run_c: count,
                val: value,
                dec: self.dec + self.run_c,
            };
        } else {
            proof {
                if self.loaded() {
                    lemma_pair_covers(s, i);
                    lemma_tail_is_empty(s, i);
                } else if self.exhausted() {
                } else {
                    lemma_decode_short(s);
                }
            }
            *self = RleCursor { buf: self.buf, i: len, run_c: 0, val: 0, dec: self.dec + self.run_c };
        }
    }

    /// Moves to the pair that holds sample `target_dec_idx`, or past the last
    /// pair if the stream has no such sample. A target at or behind the start
    /// of the current pair is reached by reading on; only a target before it
    /// is reached by reading the stream again from its start.
    pub fn advance_to(&mut self, target_dec_idx: usize)
        ensures
            final(self).stream() == old(self).stream(),
            final(self).value() == sample_at(old(self).stream(), target_dec_idx as int),
            final(self).run_start() <= target_dec_idx,
            target_dec_idx >= old(self).run_start() ==> final(self).offset() >= old(self).offset()
                && final(self).run_start() >= old(self).run_start(),
    {
        proof {
            use_type_invariant(&*self);
        }
        if target_dec_idx < self.dec {
            *self = RleCursor::new(self.buf);
        }
        proof {
            use_type_invariant(&*self);
        }
        let ghost s = self.buf@;
        let ghost forward = target_dec_idx >= old(self).dec;
        while self.run_c == 0 || target_dec_idx - self.dec >= self.run_c
            invariant
                self.inv(),
                self.buf@ == s,
                self.dec <= target_dec_idx,
                forward ==> self.i >= old(self).i && self.dec >= old(self).dec,
            ensures
                self.inv(),
                self.buf@ == s,
                self.dec <= target_dec_idx,
                forward ==> self.i >= old(self).i && self.dec >= old(self).dec,
                self.run_c == 0 ==> self.val == sample_at(s, target_dec_idx as int),
                self.run_c != 0 ==> target_dec_idx - self.dec < self.run_c,
            decreases 2 * (self.buf@.len() - self.i) + (if self.run_c == 0 { 0int } else { 1int }),
        {
            if self.run_c == 0 && self.i >= self.buf.len() {
                proof {
                    if self.loaded() {
                        lemma_pair_covers(s, self.i as int);
                        lemma_tail_is_empty(s, self.i as int);
                    } else if self.exhausted() {
                    } else {
                        lemma_decode_short(s);
                    }
                }
                *self = RleCursor {
                    buf: self.buf,
                    i: self.i,
                    run_c: 0,
                    val: 0,
                    dec: self.dec,
                };
                break;
            }
            self.load_next_run();
            proof {
                use_type_invariant(&*self);
            }
        }
        proof {
            if self.run_c != 0 {
                lemma_pair_covers(s, self.i as int);
            }
        }
    }

    /// The sample at `target_dec_idx`; 0 where the stream has no such sample.
    /// Samples asked for in non-decreasing order are found by reading on.
    pub fn get(&mut self, target_dec_idx: usize) -> (value: u8)
        ensures
            value == sample_at(old(self).stream(), target_dec_idx as int),
            final(self).stream() == old(self).stream(),
            final(self).value() == value,
            final(self).run_start() <= target_dec_idx,
            target_dec_idx >= old(self).run_start() ==> final(self).offset() >= old(self).offset()
                && final(self).run_start() >= old(self).run_start(),
    {
        self.advance_to(target_dec_idx);
        self.val
    }
}

} // verus!
