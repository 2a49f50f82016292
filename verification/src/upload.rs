//! The uploader accumulator and the persisted form of its batch list.
//!
//! `CodeUploader` collects the bytes each instruction emits, closes one
//! batch per instruction, and reports the flat upload stream, the
//! hex-encoded persisted form, and the mapping from a logical program
//! counter (counted from the end of the program) to a physical offset.
//! An instruction is opaque here except for the bytes it emits, so the
//! functions that consume one take that byte sequence.

use vstd::prelude::*;

use crate::hexcode::bytes_to_hex;
use crate::hexcode::hex_decode;
use crate::hexcode::hex_decode_spec;
use crate::hexcode::hex_encode;
use crate::hexcode::hex_of;
use crate::hexcode::hex_of_byte;
use crate::hexcode::is_hex_digit;
use crate::hexcode::lemma_hex_decode_of_hex_of;
use crate::hexcode::lemma_hex_of_digits;
use crate::payload::all_quote_free;
use crate::payload::decode_payload;
use crate::payload::encode_payload;
use crate::payload::lemma_parse_payload_of;
use crate::payload::parse_payload;
use crate::payload::payload_of;
use crate::payload::quote_free;

verus! {

/// Why reloading a persisted text failed.
#[derive(Clone, Copy, PartialEq, Eq, Debug)]
pub enum DecodeError {
    /// The text does not fit the payload grammar.
    MalformedPayload,
    /// A listed string is not an even number of hexadecimal digits.
    InvalidHex,
}

/// The batch list after closing one instruction's emission: a non-empty
/// emission appends one batch, an empty emission appends none.
pub open spec fn close_batch_model(prev: Seq<Seq<u8>>, emitted: Seq<u8>) -> Seq<Seq<u8>> {
    if emitted.len() > 0 {
        prev.push(emitted)
    } else {
        prev
    }
}

/// The batches closed by a run of emissions, in order: every non-empty
/// emission, and nothing for the empty ones.
pub open spec fn batches_of(emissions: Seq<Seq<u8>>) -> Seq<Seq<u8>>
    decreases emissions.len(),
{
    if emissions.len() == 0 {
        Seq::empty()
    } else {
        let head: Seq<Seq<u8>> = if emissions[0].len() > 0 {
            seq![emissions[0]]
        } else {
            Seq::empty()
        };
        head + batches_of(emissions.subrange(1, emissions.len() as int))
    }
}

/// Concatenation of the batches in list order.
pub open spec fn flat_of(batches: Seq<Seq<u8>>) -> Seq<u8>
    decreases batches.len(),
{
    if batches.len() == 0 {
        Seq::empty()
    } else {
        batches[0] + flat_of(batches.subrange(1, batches.len() as int))
    }
}

/// One batch as a diagnostic line body: each byte as two lowercase
/// digits followed by one space.
pub open spec fn rendered_batch(b: Seq<u8>) -> Seq<char>
    decreases b.len(),
{
    if b.len() == 0 {
        Seq::empty()
    } else {
        hex_of_byte(b[0]) + seq![' '] + rendered_batch(b.subrange(1, b.len() as int))
    }
}

/// The diagnostic rendering of a batch list: one line per batch, each
/// closed by a newline.
pub open spec fn rendered(batches: Seq<Seq<u8>>) -> Seq<char>
    decreases batches.len(),
{
    if batches.len() == 0 {
        Seq::empty()
    } else {
        rendered_batch(batches[0]) + seq!['\n'] + rendered(
            batches.subrange(1, batches.len() as int),
        )
    }
}

/// Each batch rendered as its lowercase hex string, order preserved.
pub open spec fn hexes_of(batches: Seq<Seq<u8>>) -> Seq<Seq<char>> {
    batches.map_values(|b: Seq<u8>| hex_of(b))
}

/// What reloading a persisted text yields: the batch list it encodes,
/// or the error naming the first fault found — a text outside the
/// grammar, or a listed string that is not valid hex.
pub open spec fn from_json_spec(t: Seq<char>) -> Result<Seq<Seq<u8>>, DecodeError> {
    match parse_payload(t) {
        Option::None => Err(DecodeError::MalformedPayload),
        Option::Some(ss) => if forall|i: int|
            0 <= i < ss.len() ==> hex_decode_spec(#[trigger] ss[i]) is Some {
            Ok(Seq::new(ss.len(), |i: int| hex_decode_spec(ss[i]).unwrap()))
        } else {
            Err(DecodeError::InvalidHex)
        },
    }
}

proof fn lemma_batches_of_push(emissions: Seq<Seq<u8>>, e: Seq<u8>)
    ensures
        batches_of(emissions.push(e)) == close_batch_model(batches_of(emissions), e),
    decreases emissions.len(),
{
    let whole = emissions.push(e);
    if emissions.len() == 0 {
        assert(whole.subrange(1, whole.len() as int) =~= Seq::<Seq<u8>>::empty());
        assert(batches_of(Seq::<Seq<u8>>::empty()) == Seq::<Seq<u8>>::empty());
        assert(whole[0] == e);
        if e.len() > 0 {
            assert(batches_of(whole) =~= batches_of(emissions).push(e));
        } else {
            assert(batches_of(whole) =~= batches_of(emissions));
        }
    } else {
        let tail = emissions.subrange(1, emissions.len() as int);
        assert(whole.subrange(1, whole.len() as int) =~= tail.push(e));
        lemma_batches_of_push(tail, e);
        assert(whole[0] == emissions[0]);
        if e.len() > 0 {
            assert(batches_of(whole) =~= batches_of(emissions).push(e));
        } else {
            assert(batches_of(whole) =~= batches_of(emissions));
        }
    }
}

proof fn lemma_flat_of_push(batches: Seq<Seq<u8>>, b: Seq<u8>)
    ensures
        flat_of(batches.push(b)) == flat_of(batches) + b,
    decreases batches.len(),
{
    let whole = batches.push(b);
    if batches.len() == 0 {
        assert(whole.subrange(1, whole.len() as int) =~= Seq::<Seq<u8>>::empty());
        assert(flat_of(Seq::<Seq<u8>>::empty()) == Seq::<u8>::empty());
        assert(whole[0] == b);
        assert(flat_of(whole) =~= flat_of(batches) + b);
    } else {
        let tail = batches.subrange(1, batches.len() as int);
        assert(whole.subrange(1, whole.len() as int) =~= tail.push(b));
        lemma_flat_of_push(tail, b);
        assert(whole[0] == batches[0]);
        assert(flat_of(whole) =~= flat_of(batches) + b);
    }
}

proof fn lemma_rendered_batch_push(b: Seq<u8>, x: u8)
    ensures
        rendered_batch(b.push(x)) == rendered_batch(b) + hex_of_byte(x) + seq![' '],
    decreases b.len(),
{
    let whole = b.push(x);
    if b.len() == 0 {
        assert(whole.subrange(1, whole.len() as int) =~= Seq::<u8>::empty());
        assert(rendered_batch(Seq::<u8>::empty()) == Seq::<char>::empty());
        assert(whole[0] == x);
        assert(rendered_batch(whole) =~= rendered_batch(b) + hex_of_byte(x) + seq![' ']);
    } else {
        let tail = b.subrange(1, b.len() as int);
        assert(whole.subrange(1, whole.len() as int) =~= tail.push(x));
        lemma_rendered_batch_push(tail, x);
        assert(whole[0] == b[0]);
        assert(rendered_batch(whole) =~= rendered_batch(b) + hex_of_byte(x) + seq![' ']);
    }
}

proof fn lemma_rendered_push(batches: Seq<Seq<u8>>, b: Seq<u8>)
    ensures
        rendered(batches.push(b)) == rendered(batches) + rendered_batch(b) + seq!['\n'],
    decreases batches.len(),
{
    let whole = batches.push(b);
    if batches.len() == 0 {
        assert(whole.subrange(1, whole.len() as int) =~= Seq::<Seq<u8>>::empty());
        assert(rendered(Seq::<Seq<u8>>::empty()) == Seq::<char>::empty());
        assert(whole[0] == b);
        assert(rendered(whole) =~= rendered(batches) + rendered_batch(b) + seq!['\n']);
    } else {
        let tail = batches.subrange(1, batches.len() as int);
        assert(whole.subrange(1, whole.len() as int) =~= tail.push(b));
        lemma_rendered_push(tail, b);
        assert(whole[0] == batches[0]);
        assert(rendered(whole) =~= rendered(batches) + rendered_batch(b) + seq!['\n']);
    }
}

proof fn lemma_hexes_quote_free(batches: Seq<Seq<u8>>)
    ensures
        all_quote_free(hexes_of(batches)),
{
    assert forall|j: int| 0 <= j < hexes_of(batches).len() implies quote_free(
        #[trigger] hexes_of(batches)[j],
    ) by {
        lemma_hex_of_digits(batches[j]);
        let h = hex_of(batches[j]);
        assert forall|i: int| 0 <= i < h.len() implies h[i] != '"' by {
            assert(is_hex_digit(h[i]));
            assert('"' as int == 34);
        }
    }
}

/// Batch-count law: a run of emissions, each of at least one byte,
/// closes exactly one batch per emission, keeping content and order.
pub proof fn lemma_batch_count(emissions: Seq<Seq<u8>>)
    requires
        forall|i: int| 0 <= i < emissions.len() ==> (#[trigger] emissions[i]).len() > 0,
    ensures
        batches_of(emissions) == emissions,
    decreases emissions.len(),
{
    if emissions.len() > 0 {
        let tail = emissions.subrange(1, emissions.len() as int);
        lemma_batch_count(tail);
        assert(batches_of(emissions) =~= emissions);
    } else {
        assert(batches_of(emissions) =~= emissions);
    }
}

/// Round-trip law: the persisted text of any batch list reloads to
/// exactly that batch list, element for element and in order.
pub proof fn lemma_text_round_trip(batches: Seq<Seq<u8>>)
    ensures
        from_json_spec(payload_of(hexes_of(batches))) == Ok::<Seq<Seq<u8>>, DecodeError>(batches),
{
    let hexes = hexes_of(batches);
    lemma_hexes_quote_free(batches);
    lemma_parse_payload_of(hexes);
    assert forall|i: int| 0 <= i < hexes.len() implies hex_decode_spec(
        #[trigger] hexes[i],
    ) is Some by {
        lemma_hex_decode_of_hex_of(batches[i]);
    }
    assert forall|i: int| 0 <= i < hexes.len() implies hex_decode_spec(hexes[i]).unwrap()
        == batches[i] by {
        lemma_hex_decode_of_hex_of(batches[i]);
    }
    assert(Seq::new(hexes.len(), |i: int| hex_decode_spec(hexes[i]).unwrap()) =~= batches);
}

/// Accumulates the bytes each instruction emits, closing one batch per
/// instruction; counts instructions processed against a declared total.
#[derive(Clone, PartialEq, Eq, Debug)]
pub struct CodeUploader {
    /// Bytes written for the instruction currently being encoded.
    pub build_buffer: Vec<u8>,
    /// The finalized batches, one per instruction processed, in
    /// processing order (an instruction that emitted nothing closes no
    /// batch).
    pub instructions: Vec<Vec<u8>>,
    /// Instructions processed so far.
    pub num_so_far: usize,
    /// Declared total instruction count for the run.
    pub num_total: usize,
}

impl CodeUploader {
    /// The batch list as a mathematical value.
    pub open spec fn batches(&self) -> Seq<Seq<u8>> {
        self.instructions.deep_view()
    }

    /// No finalized batch is empty: the accumulation path closes a
    /// batch only when the instruction contributed at least one byte.
    /// (A reloaded text may break this: a listed empty hex string
    /// decodes to an empty batch.)
    pub open spec fn wf(&self) -> bool {
        forall|i: int| 0 <= i < self.batches().len() ==> (#[trigger] self.batches()[i]).len() > 0
    }

    /// A fresh accumulator for a run of `num_total` instructions.
    pub fn _new(num_total: usize) -> (r: Self)
        ensures
            r.build_buffer@ == Seq::<u8>::empty(),
            r.batches() == Seq::<Seq<u8>>::empty(),
            r.num_so_far == 0,
            r.num_total == num_total,
            r.wf(),
    {
        let r = Self { build_buffer: Vec::new(), instructions: Vec::new(), num_so_far: 0, num_total };
        proof {
            assert(r.batches() =~= Seq::<Seq<u8>>::empty());
        }
        r
    }

    /// Appends one raw byte to the scratch buffer.
    pub fn push_byte(&mut self, b: u8)
        ensures
            final(self).build_buffer@ == old(self).build_buffer@.push(b),
            final(self).instructions == old(self).instructions,
            final(self).num_so_far == old(self).num_so_far,
            final(self).num_total == old(self).num_total,
    {
        self.build_buffer.push(b);
    }

    /// Appends raw bytes to the scratch buffer, in order.
    pub fn push_bytes(&mut self, b: &[u8])
        ensures
            final(self).build_buffer@ == old(self).build_buffer@ + b@,
            final(self).instructions == old(self).instructions,
            final(self).num_so_far == old(self).num_so_far,
            final(self).num_total == old(self).num_total,
    {
        let mut i: usize = 0;
        while i < b.len()
            invariant
                i <= b@.len(),
                self.build_buffer@ == old(self).build_buffer@ + b@.subrange(0, i as int),
                self.instructions == old(self).instructions,
                self.num_so_far == old(self).num_so_far,
                self.num_total == old(self).num_total,
            decreases b@.len() - i,
        {
            let by = b[i];
            self.build_buffer.push(by);
            proof {
                assert(old(self).build_buffer@ + b@.subrange(0, i + 1) =~= (old(
                    self,
                ).build_buffer@ + b@.subrange(0, i as int)).push(b@[i as int]));
            }
            i += 1;
        }
        proof {
            assert(b@.subrange(0, b@.len() as int) =~= b@);
        }
    }

    /// Feeds one instruction's emitted bytes through the byte sink,
    /// counts the instruction, and closes its batch.
    pub fn _serialize_one(&mut self, insn: &Vec<u8>)
        requires
            old(self).num_so_far < usize::MAX,
        ensures
            final(self).build_buffer@ == Seq::<u8>::empty(),
            final(self).batches() == close_batch_model(
                old(self).batches(),
                old(self).build_buffer@ + insn@,
            ),
            final(self).num_so_far == old(self).num_so_far + 1,
            final(self).num_total == old(self).num_total,
            old(self).wf() ==> final(self).wf(),
    {
        self.push_bytes(insn.as_slice());
        self.num_so_far = self.num_so_far + 1;
        self._finish_batch();
    }

    /// A physical offset from a logical program counter that counts
    /// from the end of the program.
    pub fn _translate_pc(&self, pc: usize) -> (r: usize)
        requires
            pc <= self.num_total,
        ensures
            r == self.num_total - pc,
    {
        self.num_total - pc
    }

    /// Closes the batch under construction: a non-empty scratch buffer
    /// becomes the next batch and the buffer empties; an empty buffer
    /// closes nothing.
    pub fn _finish_batch(&mut self)
        ensures
            final(self).build_buffer@ == Seq::<u8>::empty(),
            final(self).batches() == close_batch_model(old(self).batches(), old(self).build_buffer@),
            final(self).num_so_far == old(self).num_so_far,
            final(self).num_total == old(self).num_total,
            old(self).wf() ==> final(self).wf(),
    {
        if self.build_buffer.len() > 0 {
            let mut finished: Vec<u8> = Vec::new();
            std::mem::swap(&mut finished, &mut self.build_buffer);
            let ghost before = self.batches();
            self.instructions.push(finished);
            proof {
                assert(self.batches() =~~= before.push(old(self).build_buffer@));
            }
        }
    }

    /// A copy of the batch list.
    pub fn _finalize(&mut self) -> (r: Vec<Vec<u8>>)
        ensures
            *final(self) == *old(self),
            r.deep_view() == old(self).batches(),
    {
        let mut r: Vec<Vec<u8>> = Vec::new();
        let mut i: usize = 0;
        while i < self.instructions.len()
            invariant
                i <= self.instructions.len(),
                *self == *old(self),
                r.deep_view() == self.batches().subrange(0, i as int),
            decreases self.instructions.len() - i,
        {
            let b = copy_bytes(&self.instructions[i]);
            let ghost before = r.deep_view();
            r.push(b);
            proof {
                assert(r.deep_view() =~= before.push(self.batches()[i as int]));
                assert(self.batches().subrange(0, i + 1) =~= self.batches().subrange(
                    0,
                    i as int,
                ).push(self.batches()[i as int]));
            }
            i += 1;
        }
        proof {
            assert(self.batches().subrange(0, self.batches().len() as int) =~= self.batches());
        }
        r
    }

    /// The batches concatenated, in list order, into one upload stream.
    pub fn _to_flat_vec(&self) -> (r: Vec<u8>)
        ensures
            r@ == flat_of(self.batches()),
    {
        let mut r: Vec<u8> = Vec::new();
        let mut i: usize = 0;
        while i < self.instructions.len()
            invariant
                i <= self.instructions.len(),
                r@ == flat_of(self.batches().subrange(0, i as int)),
            decreases self.instructions.len() - i,
        {
            let mut j: usize = 0;
            let ghost flat_before = r@;
            while j < self.instructions[i].len()
                invariant
                    i < self.instructions@.len(),
                    j <= self.instructions[i as int]@.len(),
                    r@ == flat_before + self.batches()[i as int].subrange(0, j as int),
                decreases self.instructions[i as int]@.len() - j,
            {
                let by = self.instructions[i][j];
                r.push(by);
                proof {
                    assert(flat_before + self.batches()[i as int].subrange(0, j + 1)
                        =~= (flat_before + self.batches()[i as int].subrange(0, j as int)).push(
                        self.batches()[i as int][j as int],
                    ));
                }
                j += 1;
            }
            proof {
                assert(self.batches()[i as int].subrange(
                    0,
                    self.batches()[i as int].len() as int,
                ) =~= self.batches()[i as int]);
                assert(self.batches().subrange(0, i as int).push(self.batches()[i as int])
                    =~= self.batches().subrange(0, i + 1));
                lemma_flat_of_push(self.batches().subrange(0, i as int), self.batches()[i as int]);
            }
            i += 1;
        }
        proof {
            assert(self.batches().subrange(0, self.batches().len() as int) =~= self.batches());
        }
        r
    }

    /// The diagnostic text of the batch list: one line per batch, each
    /// byte as two lowercase hex digits followed by a space. For
    /// inspection only; the wire format is the persisted form.
    pub fn _display_string(&self) -> (r: String)
        ensures
            r@ == rendered(self.batches()),
    {
        proof {
            reveal_strlit(" ");
            reveal_strlit("\n");
        }
        let mut out = String::new();
        let mut i: usize = 0;
        while i < self.instructions.len()
            invariant
                i <= self.instructions@.len(),
                out@ == rendered(self.batches().subrange(0, i as int)),
                " "@ == seq![' '],
                "\n"@ == seq!['\n'],
            decreases self.instructions@.len() - i,
        {
            let ghost line_before = out@;
            let mut j: usize = 0;
            while j < self.instructions[i].len()
                invariant
                    i < self.instructions@.len(),
                    j <= self.instructions[i as int]@.len(),
                    out@ == line_before + rendered_batch(
                        self.batches()[i as int].subrange(0, j as int),
                    ),
                    " "@ == seq![' '],
                decreases self.instructions[i as int]@.len() - j,
            {
                let one = vec![self.instructions[i][j]];
                let h = hex_encode(&one);
                out.append(h.as_str());
                out.append(" ");
                proof {
                    let batch = self.batches()[i as int];
                    let x = batch[j as int];
                    assert(one@ =~= seq![x]);
                    assert(seq![x].subrange(1, 1) =~= Seq::<u8>::empty());
                    assert(hex_of(Seq::<u8>::empty()) == Seq::<char>::empty());
                    assert(hex_of(one@) =~= hex_of_byte(x));
                    lemma_rendered_batch_push(batch.subrange(0, j as int), x);
                    assert(batch.subrange(0, j + 1) =~= batch.subrange(0, j as int).push(x));
                    assert(out@ =~= line_before + rendered_batch(batch.subrange(0, j + 1)));
                }
                j += 1;
            }
            out.append("\n");
            proof {
                let batch = self.batches()[i as int];
                assert(batch.subrange(0, batch.len() as int) =~= batch);
                lemma_rendered_push(self.batches().subrange(0, i as int), batch);
                assert(self.batches().subrange(0, i + 1) =~= self.batches().subrange(
                    0,
                    i as int,
                ).push(batch));
                assert(out@ =~= rendered(self.batches().subrange(0, i + 1)));
            }
            i += 1;
        }
        proof {
            assert(self.batches().subrange(0, self.batches().len() as int) =~= self.batches());
        }
        out
    }

    /// The persisted form: each batch as its hex string, in order.
    pub fn _to_code_for_upload(&self) -> (r: CodeForUpload)
        ensures
            r.instructions.deep_view() == hexes_of(self.batches()),
    {
        let mut insns: Vec<String> = Vec::new();
        let mut i: usize = 0;
        while i < self.instructions.len()
            invariant
                i <= self.instructions.len(),
                insns.deep_view() == hexes_of(self.batches().subrange(0, i as int)),
            decreases self.instructions.len() - i,
        {
            let h = bytes_to_hex(&self.instructions[i]);
            let ghost before = insns.deep_view();
            let ghost hview = h@;
            insns.push(h);
            proof {
                assert(self.batches()[i as int] =~= self.instructions@[i as int]@);
                assert(insns.deep_view() =~~= before.push(hview));
                assert(hexes_of(self.batches().subrange(0, i + 1)) =~= hexes_of(
                    self.batches().subrange(0, i as int),
                ).push(hex_of(self.batches()[i as int])));
            }
            i += 1;
        }
        proof {
            assert(self.batches().subrange(0, self.batches().len() as int) =~= self.batches());
        }
        CodeForUpload { instructions: insns }
    }

    /// The persisted form serialized as the text payload.
    pub fn _to_json(&self) -> (r: String)
        ensures
            r@ == payload_of(hexes_of(self.batches())),
    {
        self._to_code_for_upload()._to_json()
    }

    /// Reloads a persisted text: on success the batch list equals what
    /// the text encodes, the scratch buffer is empty, and both counters
    /// equal the number of decoded batches.
    pub fn _from_json(s: &str) -> (r: Result<Self, DecodeError>)
        ensures
            r matches Ok(u) ==> {
                &&& from_json_spec(s@) == Ok::<Seq<Seq<u8>>, DecodeError>(u.batches())
                &&& u.build_buffer@ == Seq::<u8>::empty()
                &&& u.num_so_far == u.batches().len()
                &&& u.num_total == u.batches().len()
            },
            r matches Err(e) ==> from_json_spec(s@) == Err::<Seq<Seq<u8>>, DecodeError>(e),
    {
        match decode_payload(s) {
            Option::None => Err(DecodeError::MalformedPayload),
            Option::Some(strs) => {
                let ghost ss = strs.deep_view();
                let mut out: Vec<Vec<u8>> = Vec::new();
                let mut i: usize = 0;
                proof {
                    assert(out.deep_view() =~= Seq::<Seq<u8>>::empty());
                }
                while i < strs.len()
                    invariant
                        i <= strs@.len(),
                        ss == strs.deep_view(),
                        parse_payload(s@) == Some(ss),
                        out.deep_view().len() == i,
                        forall|k: int|
                            0 <= k < i ==> hex_decode_spec(#[trigger] ss[k]) == Some(
                                out.deep_view()[k],
                            ),
                    decreases strs@.len() - i,
                {
                    proof {
                        assert(ss[i as int] == strs@[i as int]@);
                    }
                    match hex_decode(strs[i].as_str()) {
                        Ok(bytes) => {
                            let ghost before = out.deep_view();
                            let ghost bview = bytes@;
                            out.push(bytes);
                            proof {
                                assert(out.deep_view() =~~= before.push(bview));
                            }
                        },
                        Err(_) => {
                            proof {
                                assert(hex_decode_spec(ss[i as int]) is None);
                            }
                            return Err(DecodeError::InvalidHex);
                        },
                    }
                    i += 1;
                }
                let n = out.len();
                let r = Self {
                    build_buffer: Vec::new(),
                    instructions: out,
                    num_so_far: n,
                    num_total: n,
                };
                proof {
                    assert(r.batches() =~= Seq::new(
                        ss.len(),
                        |k: int| hex_decode_spec(ss[k]).unwrap(),
                    ));
                }
                Ok(r)
            },
        }
    }

    /// Builds the accumulator for an ordered instruction list as a
    /// loader hands it over, with each instruction given as the bytes
    /// it emits: the total is the list's length and the instructions
    /// are processed in reverse of the listed order, so the first batch
    /// belongs to the last listed instruction. This pairs with
    /// `_translate_pc`: logical program counters were assigned counting
    /// from the end of the program.
    pub fn _new_from_code(code: &Vec<Vec<u8>>) -> (r: Self)
        ensures
            r.build_buffer@ == Seq::<u8>::empty(),
            r.batches() == batches_of(code.deep_view().reverse()),
            r.num_so_far == code.len(),
            r.num_total == code.len(),
            r.wf(),
    {
        let n = code.len();
        let mut r = Self::_new(n);
        let ghost rev = code.deep_view().reverse();
        let mut i: usize = 0;
        while i < n
            invariant
                i <= n,
                n == code@.len(),
                rev == code.deep_view().reverse(),
                r.build_buffer@ == Seq::<u8>::empty(),
                r.batches() == batches_of(rev.subrange(0, i as int)),
                r.num_so_far == i,
                r.num_total == n,
                r.wf(),
            decreases n - i,
        {
            r._serialize_one(&code[n - 1 - i]);
            proof {
                assert(rev[i as int] == code.deep_view()[n - 1 - i]);
                assert(Seq::<u8>::empty() + code@[n - 1 - i]@ =~= rev[i as int]);
                assert(rev.subrange(0, i + 1) =~= rev.subrange(0, i as int).push(rev[i as int]));
                lemma_batches_of_push(rev.subrange(0, i as int), rev[i as int]);
            }
            i += 1;
        }
        proof {
            assert(rev.subrange(0, rev.len() as int) =~= rev);
        }
        r
    }
}

/// A byte-for-byte copy of a byte vector.
fn copy_bytes(v: &Vec<u8>) -> (r: Vec<u8>)
    ensures
        r@ == v@,
{
    let mut r: Vec<u8> = Vec::new();
    let mut i: usize = 0;
    while i < v.len()
        invariant
            i <= v@.len(),
            r@ == v@.subrange(0, i as int),
        decreases v@.len() - i,
    {
        let by = v[i];
        r.push(by);
        proof {
            assert(v@.subrange(0, i + 1) =~= v@.subrange(0, i as int).push(v@[i as int]));
        }
        i += 1;
    }
    proof {
        assert(v@.subrange(0, v@.len() as int) =~= v@);
    }
    r
}

/// The persisted form of a batch list: one lowercase hex string per
/// batch, in batch order, with the count implicit in the length.
#[derive(Clone, PartialEq, Eq, Debug)]
pub struct CodeForUpload {
    /// One hex string per batch, in order.
    pub instructions: Vec<String>,
}

impl CodeForUpload {
    /// Hex-encodes each batch, preserving order.
    pub fn _new(insns: Vec<Vec<u8>>) -> (r: Self)
        ensures
            r.instructions.deep_view() == hexes_of(insns.deep_view()),
    {
        let mut out: Vec<String> = Vec::new();
        let mut i: usize = 0;
        proof {
            assert(out.deep_view() =~= hexes_of(insns.deep_view().subrange(0, 0)));
        }
        while i < insns.len()
            invariant
                i <= insns@.len(),
                out.deep_view() == hexes_of(insns.deep_view().subrange(0, i as int)),
            decreases insns@.len() - i,
        {
            let h = hex_encode(&insns[i]);
            let ghost before = out.deep_view();
            let ghost hview = h@;
            out.push(h);
            proof {
                assert(insns.deep_view()[i as int] =~= insns@[i as int]@);
                assert(out.deep_view() =~~= before.push(hview));
                assert(hexes_of(insns.deep_view().subrange(0, i + 1)) =~= hexes_of(
                    insns.deep_view().subrange(0, i as int),
                ).push(hex_of(insns.deep_view()[i as int])));
            }
            i += 1;
        }
        proof {
            assert(insns.deep_view().subrange(0, insns.deep_view().len() as int) =~= insns.deep_view());
        }
        Self { instructions: out }
    }

    /// Serializes the ordered hex strings as the text payload.
    pub fn _to_json(&self) -> (r: String)
        ensures
            r@ == payload_of(self.instructions.deep_view()),
    {
        encode_payload(&self.instructions)
    }

    /// Parses a text payload back into the ordered strings; a text
    /// outside the grammar is reported, never partially decoded.
    pub fn _from_json(s: &str) -> (r: Result<Self, DecodeError>)
        ensures
            r matches Ok(c) ==> parse_payload(s@) == Some(c.instructions.deep_view()),
            r matches Err(e) ==> e == DecodeError::MalformedPayload && parse_payload(s@) is None,
    {
        match decode_payload(s) {
            Option::Some(strs) => Ok(Self { instructions: strs }),
            Option::None => Err(DecodeError::MalformedPayload),
        }
    }
}

} // verus!
