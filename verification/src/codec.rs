//! The codec: plaintext bytes are split into fixed-size chunks, each chunk is
//! compressed independently into a self-terminating frame, the frames are
//! concatenated in chunk order, and the result is sealed in a passphrase
//! envelope.  Decoding opens the envelope and walks the frame sequence with a
//! streaming decompressor that detects each frame boundary mid-buffer.

use rayon::iter::IntoParallelRefIterator;
use rayon::iter::ParallelIterator;
use vstd::prelude::*;

verus! {

/// Size of one plaintext chunk in the multi-frame encoding mode.
pub const CHUNK_SIZE: usize = 1048576;

/// Errors the codec surfaces to its caller.  A wrong passphrase and a
/// corrupted ciphertext are indistinguishable: both are `DecryptionError`.
#[derive(Debug, Clone, Copy, PartialEq, Eq, Structural)]
pub enum CodecError {
    /// A filesystem failure around the codec (used by callers that do I/O).
    IOError,
    /// The compressor or decompressor failed; the whole call is aborted.
    CompressionError,
    /// The container's format marker is not recognized.
    FormatError,
    /// Authentication failed: wrong passphrase or corrupted ciphertext.
    DecryptionError,
}

impl CodecError {
    /// A short human-readable description of the error.
    pub fn message(self) -> (r: &'static str)
        ensures
            r@ == self.spec_message(),
    {
        match self {
            CodecError::IOError => "filesystem failure",
            CodecError::CompressionError => "compression or decompression failed",
            CodecError::FormatError => "not a recognized container",
            CodecError::DecryptionError => "wrong passphrase or corrupted container",
        }
    }

    pub open spec fn spec_message(self) -> Seq<char> {
        match self {
            CodecError::IOError => "filesystem failure"@,
            CodecError::CompressionError => "compression or decompression failed"@,
            CodecError::FormatError => "not a recognized container"@,
            CodecError::DecryptionError => "wrong passphrase or corrupted container"@,
        }
    }
}

/// Compression effort presets, mapped to the underlying encoder's quality.
#[derive(Debug, Clone, Copy, PartialEq, Eq, Structural)]
pub enum QualityPreset {
    /// Lowest effort, fastest.
    Fast,
    /// The default trade-off.
    Balanced,
    /// Highest effort, smallest output.
    Best,
}

impl QualityPreset {
    /// The encoder quality level this preset stands for.
    pub fn level(self) -> (q: u32)
        ensures
            q == self.spec_level(),
    {
        match self {
            QualityPreset::Fast => 1,
            QualityPreset::Balanced => 6,
            QualityPreset::Best => 11,
        }
    }

    pub open spec fn spec_level(self) -> u32 {
        match self {
            QualityPreset::Fast => 1u32,
            QualityPreset::Balanced => 6u32,
            QualityPreset::Best => 11u32,
        }
    }
}

/// Number of chunks that a plaintext of length `len` yields for chunk size
/// `c`: `ceil(len / c)`.
pub open spec fn chunk_count(len: nat, c: nat) -> nat
    recommends
        c > 0,
{
    if len % c == 0 {
        len / c
    } else {
        len / c + 1
    }
}

/// The chunks of `s` for chunk size `c`, in order: every chunk has length `c`
/// except the last, which holds the remainder (never empty; an empty input
/// yields no chunks).
pub open spec fn spec_chunks(s: Seq<u8>, c: nat) -> Seq<Seq<u8>>
    recommends
        c > 0,
    decreases s.len()
        when c > 0
{
    if s.len() == 0 {
        Seq::empty()
    } else if s.len() <= c {
        seq![s]
    } else {
        seq![s.take(c as int)] + spec_chunks(s.skip(c as int), c)
    }
}

/// The concatenation of a sequence of byte sequences, in order.
pub open spec fn concat_all(ss: Seq<Seq<u8>>) -> Seq<u8>
    decreases ss.len(),
{
    if ss.len() == 0 {
        Seq::empty()
    } else {
        ss[0] + concat_all(ss.drop_first())
    }
}

/// Chunking is lossless: the chunks of `s` concatenate back to `s`.
pub proof fn lemma_chunks_concat(s: Seq<u8>, c: nat)
    requires
        c > 0,
    ensures
        concat_all(spec_chunks(s, c)) == s,
    decreases s.len(),
{
    if s.len() == 0 {
        assert(concat_all(spec_chunks(s, c)) =~= s);
    } else if s.len() <= c {
        assert(spec_chunks(s, c) =~= seq![s]);
        assert(seq![s].drop_first() =~= Seq::<Seq<u8>>::empty());
        assert(concat_all(seq![s]) == seq![s][0] + concat_all(seq![s].drop_first()));
        assert(s + Seq::<u8>::empty() =~= s);
    } else {
        lemma_chunks_concat(s.skip(c as int), c);
        assert((seq![s.take(c as int)] + spec_chunks(s.skip(c as int), c)).drop_first()
            =~= spec_chunks(s.skip(c as int), c));
        assert(s.take(c as int) + s.skip(c as int) =~= s);
    }
}

/// Chunk-count determinism: the number of chunks is `ceil(len / c)`, and the
/// last chunk's length is `len % c` when that is nonzero, else `c`.
pub proof fn lemma_chunk_shape(s: Seq<u8>, c: nat)
    requires
        c > 0,
    ensures
        spec_chunks(s, c).len() == chunk_count(s.len(), c),
        forall|i: int|
            0 <= i < spec_chunks(s, c).len() - 1 ==> (#[trigger] spec_chunks(s, c)[i]).len() == c,
        s.len() > 0 ==> spec_chunks(s, c).last().len() == (if s.len() % c == 0 {
            c as int
        } else {
            (s.len() % c) as int
        }),
    decreases s.len(),
{
    let l = s.len() as int;
    let ci = c as int;
    if s.len() == 0 {
        assert(l % ci == 0 && l / ci == 0) by (nonlinear_arith)
            requires ci > 0 && l == 0;
    } else if s.len() < c {
        assert(l % ci == l && l / ci == 0) by (nonlinear_arith)
            requires ci > 0 && 0 < l < ci;
    } else if s.len() == c {
        assert(l % ci == 0 && l / ci == 1) by (nonlinear_arith)
            requires ci > 0 && l == ci;
    } else {
        lemma_chunk_shape(s.skip(c as int), c);
        let rest = spec_chunks(s.skip(c as int), c);
        assert(s.skip(c as int).len() == s.len() - c);
        assert((l - ci) % ci == l % ci) by (nonlinear_arith)
            requires ci > 0 && l > ci;
        assert((l - ci) / ci + 1 == l / ci) by (nonlinear_arith)
            requires ci > 0 && l > ci;
        assert(spec_chunks(s, c).last() == rest.last());
        assert(forall|i: int|
            0 <= i < spec_chunks(s, c).len() - 1 ==> (#[trigger] spec_chunks(s, c)[i]).len()
                == c) by {
            assert forall|i: int| 0 <= i < spec_chunks(s, c).len() - 1 implies (
            #[trigger] spec_chunks(s, c)[i]).len() == c by {
                if i > 0 {
                    assert(spec_chunks(s, c)[i] == rest[i - 1]);
                }
            }
        }
    }
}

/// Split `data` into chunks of `chunk_size` bytes; the last chunk holds the
/// remainder.  Purely deterministic and lossless; chunks are produced in
/// order and never overlap or omit bytes.
pub fn split_chunks(data: &Vec<u8>, chunk_size: usize) -> (r: Vec<Vec<u8>>)
    requires
        chunk_size > 0,
    ensures
        r@.map_values(|v: Vec<u8>| v@) == spec_chunks(data@, chunk_size as nat),
{
    let mut r: Vec<Vec<u8>> = Vec::new();
    let mut pos: usize = 0;
    let len = data.len();
    proof {
        assert(data@.skip(0) =~= data@);
        assert(r@.map_values(|v: Vec<u8>| v@) + spec_chunks(data@, chunk_size as nat)
            =~= spec_chunks(data@, chunk_size as nat));
    }
    while pos < len
        invariant
            pos <= len,
            len == data@.len(),
            chunk_size > 0,
            spec_chunks(data@, chunk_size as nat) =~= r@.map_values(|v: Vec<u8>| v@)
                + spec_chunks(data@.skip(pos as int), chunk_size as nat),
        decreases len - pos,
    {
        let end = if len - pos < chunk_size {
            len
        } else {
            pos + chunk_size
        };
        let chunk = vstd::slice::slice_to_vec(vstd::slice::slice_subrange(
            data.as_slice(),
            pos,
            end,
        ));
        proof {
            let tail = data@.skip(pos as int);
            if tail.len() <= chunk_size {
                assert(chunk@ =~= tail);
                assert(spec_chunks(tail, chunk_size as nat) =~= seq![tail]);
            } else {
                assert(chunk@ =~= tail.take(chunk_size as int));
                assert(tail.skip(chunk_size as int) =~= data@.skip(end as int));
            }
        }
        let ghost prior = r@;
        let ghost chunk_view = chunk@;
        r.push(chunk);
        proof {
            assert(r@.map_values(|v: Vec<u8>| v@) =~= prior.map_values(|v: Vec<u8>| v@)
                + seq![chunk_view]);
        }
        pos = end;
    }
    proof {
        assert(data@.skip(pos as int) =~= Seq::<u8>::empty());
        assert(spec_chunks(data@.skip(pos as int), chunk_size as nat) =~= Seq::<Seq<u8>>::empty());
        assert(spec_chunks(data@, chunk_size as nat) =~= r@.map_values(|v: Vec<u8>| v@));
    }
    r
}

/// Concatenate the given frames in order, with no separators, length
/// prefixes, or padding between them.
pub fn concat_frames(frames: &Vec<Vec<u8>>) -> (r: Vec<u8>)
    ensures
        r@ == concat_all(frames@.map_values(|v: Vec<u8>| v@)),
{
    let mut r: Vec<u8> = Vec::new();
    let n = frames.len();
    let mut i: usize = 0;
    proof {
        assert(frames@.skip(0) =~= frames@);
        assert(r@ + concat_all(frames@.map_values(|v: Vec<u8>| v@)) =~= concat_all(
            frames@.map_values(|v: Vec<u8>| v@),
        ));
    }
    while i < n
        invariant
            i <= n,
            n == frames@.len(),
            concat_all(frames@.map_values(|v: Vec<u8>| v@)) =~= r@ + concat_all(
                frames@.skip(i as int).map_values(|v: Vec<u8>| v@),
            ),
        decreases n - i,
    {
        proof {
            let views = frames@.skip(i as int).map_values(|v: Vec<u8>| v@);
            assert(views[0] == frames@[i as int]@);
            assert(views.drop_first() =~= frames@.skip(i as int + 1).map_values(
                |v: Vec<u8>| v@,
            ));
        }
        let frame = &frames[i];
        r.extend_from_slice(frame.as_slice());
        i += 1;
    }
    proof {
        assert(concat_all(frames@.skip(n as int).map_values(|v: Vec<u8>| v@)) =~= Seq::<
            u8,
        >::empty());
    }
    r
}

// ── The compressed frame format ──────────────────────────────────────────
//
// A frame is the compressed encoding of one chunk, and it is
// self-terminating: a decoder reading a byte stream that begins with a
// complete frame finds the frame's end on its own, leaving any trailing
// bytes untouched.  The two names below stand for what the outside
// decompressor computes; they are functions of the bytes alone.

/// The bytes the streaming decompressor has emitted after consuming exactly
/// `fed` from the start of a frame.
pub uninterp spec fn partial_out(fed: Seq<u8>) -> Seq<u8>;

/// Where the first complete frame in `stream` ends: `Some(k)` when the first
/// `k` bytes form a complete frame, `None` when no prefix of `stream` does.
pub uninterp spec fn frame_end(stream: Seq<u8>) -> Option<nat>;

/// What the outside compressor produces for `data` at the given quality.
pub uninterp spec fn frame_of(data: Seq<u8>, quality: u32) -> Seq<u8>;

/// `f` is a complete self-terminating frame that decodes to exactly `x`:
/// whatever bytes follow it, the decoder stops at `f`'s end and has emitted
/// `x` by then.
pub open spec fn is_frame_for(f: Seq<u8>, x: Seq<u8>) -> bool {
    &&& f.len() > 0
    &&& partial_out(f) == x
    &&& frame_end(f) == Some(f.len() as nat)
    &&& forall|rest: Seq<u8>| #[trigger] frame_end(f + rest) == Some(f.len() as nat)
}

/// The sequential decoding of a whole payload: peel one complete frame at a
/// time from the front, emit its output, and continue on the leftover bytes.
/// `None` when the payload is not a concatenation of complete frames.
pub open spec fn inflate_all(s: Seq<u8>) -> Option<Seq<u8>>
    decreases s.len(),
{
    if s.len() == 0 {
        Some(Seq::empty())
    } else {
        match frame_end(s) {
            Some(k) => if 1 <= k <= s.len() {
                match inflate_all(s.skip(k as int)) {
                    Some(rest) => Some(partial_out(s.take(k as int)) + rest),
                    None => None,
                }
            } else {
                None
            },
            None => None,
        }
    }
}

/// Relies on brotli's `CompressorWriter` with default parameters at the
/// given quality: writing one chunk and dropping the writer flushes one
/// complete brotli stream into the output.  Such a stream is a function of
/// the input bytes and the quality alone, it is self-terminating, and
/// decompressing it yields the input bytes back.
#[verifier::external_body]
fn compress_frame(data: &[u8], quality: u32) -> (r: Vec<u8>)
    requires
        quality <= 11,
    ensures
        r@ == frame_of(data@, quality),
        is_frame_for(r@, data@),
{
    let mut out = Vec::new();
    let mut params = brotli::enc::BrotliEncoderParams::default();
    params.quality = quality as i32;
    {
        let mut w = brotli::CompressorWriter::with_params(&mut out, 4096, &params);
        let _ = std::io::Write::write_all(&mut w, data);
    }
    out
}

/// Relies on rayon's thread pool: mapping `compress_frame` over the chunks
/// in parallel yields the frames indexed by original chunk position,
/// independent of which worker finishes first.
#[verifier::external_body]
fn compress_chunks_parallel(chunks: &Vec<Vec<u8>>, quality: u32, workers: usize) -> (r: Result<
    Vec<Vec<u8>>,
    CodecError,
>)
    requires
        quality <= 11,
    ensures
        r matches Ok(frames) ==> {
            &&& frames@.len() == chunks@.len()
            &&& forall|i: int|
                0 <= i < chunks@.len() ==> (#[trigger] frames@[i])@ == frame_of(
                    chunks@[i]@,
                    quality,
                ) && is_frame_for(frames@[i]@, chunks@[i]@)
        },
{
    let pool = match rayon::ThreadPoolBuilder::new().num_threads(workers).build() {
        Ok(p) => p,
        Err(_) => {
            return Err(CodecError::CompressionError);
        },
    };
    Ok(pool.install(|| chunks.par_iter().map(|c| compress_frame(c.as_slice(), quality)).collect()))
}

// ── The streaming multi-frame decompressor ───────────────────────────────

/// What one call into the streaming decompressor reported.
#[derive(Debug, Clone, Copy, PartialEq, Eq, Structural)]
pub enum StepStatus {
    /// All available input was consumed without completing the frame.
    NeedsMoreInput,
    /// The output buffer filled; the same frame continues.
    NeedsMoreOutput,
    /// The current frame is complete and fully emitted; unconsumed input
    /// belongs to the next frame.
    FrameComplete,
    /// The stream is corrupt; no extension of it decodes.
    Failed,
}

/// Holds the outside decompressor's state; opaque to the verifier.
#[verifier::external_body]
struct DecoderState {
    inner: brotli::BrotliState<
        brotli::enc::StandardAlloc,
        brotli::enc::StandardAlloc,
        brotli::enc::StandardAlloc,
    >,
}

/// Decoder state for one frame, tracked against the bytes consumed so far
/// (`fed`) and the bytes emitted so far (`emitted`) for that frame.
pub struct FrameDecoder {
    state: DecoderState,
    fed: Ghost<Seq<u8>>,
    emitted: Ghost<Seq<u8>>,
}

impl FrameDecoder {
    /// What has been emitted is always a prefix of what the consumed bytes
    /// determine.
    pub closed spec fn wf(self) -> bool {
        &&& self.emitted@.len() <= partial_out(self.fed@).len()
        &&& self.emitted@ == partial_out(self.fed@).take(self.emitted@.len() as int)
    }

    pub closed spec fn fed_view(self) -> Seq<u8> {
        self.fed@
    }

    pub closed spec fn emitted_view(self) -> Seq<u8> {
        self.emitted@
    }

    /// Relies on `BrotliState::new` for the underlying state; a fresh
    /// decoder has consumed and emitted nothing.
    #[verifier::external_body]
    fn new_state() -> DecoderState {
        DecoderState {
            inner: brotli::BrotliState::new(
                brotli::enc::StandardAlloc::default(),
                brotli::enc::StandardAlloc::default(),
                brotli::enc::StandardAlloc::default(),
            ),
        }
    }

    /// A decoder at the start of a frame.
    pub fn fresh() -> (d: FrameDecoder)
        ensures
            d.fed_view() == Seq::<u8>::empty(),
            d.emitted_view() == Seq::<u8>::empty(),
            d.wf(),
    {
        let d = FrameDecoder {
            state: Self::new_state(),
            fed: Ghost(Seq::empty()),
            emitted: Ghost(Seq::empty()),
        };
        proof {
            assert(partial_out(d.fed@).take(0) =~= Seq::<u8>::empty());
        }
        d
    }

    /// Relies on `BrotliDecompressStream`, the low-level streaming entry
    /// point: it consumes a prefix of `input`, appends what it decoded, and
    /// reports how it stopped.  On `FrameComplete` it has consumed exactly
    /// to the frame's end and emitted the frame's whole output; on
    /// `NeedsMoreInput` it has consumed all of `input` and no prefix of the
    /// consumed bytes is a complete frame; on `NeedsMoreOutput` the fixed
    /// output window (65536 bytes) filled before the frame ended; on
    /// `Failed` no extension of the consumed bytes decodes.
    #[verifier::external_body]
    pub fn step(&mut self, input: &[u8]) -> (r: (usize, Vec<u8>, StepStatus))
        requires
            old(self).wf(),
        ensures
            r.0 <= input@.len(),
            final(self).fed_view() == old(self).fed_view() + input@.take(r.0 as int),
            final(self).emitted_view() == old(self).emitted_view() + r.1@,
            final(self).wf(),
            r.1@.len() <= 65536,
            r.2 == StepStatus::FrameComplete ==> final(self).emitted_view() == partial_out(
                final(self).fed_view(),
            ) && is_frame_for(final(self).fed_view(), final(self).emitted_view()),
            r.2 == StepStatus::NeedsMoreInput ==> r.0 == input@.len() && forall|rest: Seq<u8>|
                #[trigger] frame_end(final(self).fed_view() + rest) matches Some(n) ==> n > final(self).fed_view().len(),
            r.2 == StepStatus::NeedsMoreOutput ==> r.1@.len() > 0 && final(self).fed_view().len()
                > 0 && forall|rest: Seq<u8>|
                #[trigger] frame_end(final(self).fed_view() + rest) matches Some(n) ==> n >= final(self).fed_view().len(),
            r.2 == StepStatus::Failed ==> forall|rest: Seq<u8>|
                #[trigger] frame_end(final(self).fed_view() + rest) is None,
    {
        let mut outbuf = vec![0u8; 65536];
        let (mut ai, mut io, mut ao, mut oo, mut t) = (input.len(), 0usize, 65536usize, 0usize, 0usize);
        let res = brotli::BrotliDecompressStream(&mut ai, &mut io, input, &mut ao, &mut oo, &mut outbuf, &mut t, &mut self.state.inner);
        outbuf.truncate(oo);
        let status = match res {
            brotli::BrotliResult::ResultSuccess => StepStatus::FrameComplete,
            brotli::BrotliResult::NeedsMoreInput => StepStatus::NeedsMoreInput,
            brotli::BrotliResult::NeedsMoreOutput => StepStatus::NeedsMoreOutput,
            brotli::BrotliResult::ResultFailure => StepStatus::Failed,
        };
        (io, outbuf, status)
    }
}

/// Walk the decrypted payload as a sequence of self-terminating frames.  A
/// bounded input window is fed to the decoder; produced output is flushed to
/// the result; when a frame completes, only the consumed bytes are
/// discarded — unconsumed window bytes belong to the next frame and are fed
/// again from the same position — and the decoder is replaced by a fresh
/// one.  A frame boundary may fall anywhere inside a window.
pub fn decode_frames(payload: &Vec<u8>) -> (r: Result<Vec<u8>, CodecError>)
    ensures
        r matches Ok(y) ==> inflate_all(payload@) == Some(y@),
        r is Err ==> inflate_all(payload@) is None && r == Err::<Vec<u8>, CodecError>(
            CodecError::CompressionError,
        ),
{
    let len = payload.len();
    let mut out: Vec<u8> = Vec::new();
    let mut dec = FrameDecoder::fresh();
    let mut pos: usize = 0;
    let mut mid = false;
    let ghost mut done: int = 0;
    let ghost mut out_done: Seq<u8> = Seq::empty();
    proof {
        assert(payload@.subrange(0, 0) =~= Seq::<u8>::empty());
        assert(out_done + dec.emitted_view() =~= Seq::<u8>::empty());
        assert(payload@.skip(0) =~= payload@);
        assert(out_done + payload@ =~= payload@);
        if inflate_all(payload@) is Some {
            let whole = inflate_all(payload@);
            assert(out_done + whole.unwrap() =~= whole.unwrap());
        }
    }
    loop
        invariant
            len == payload@.len(),
            0 <= done <= pos <= len,
            dec.wf(),
            dec.fed_view() == payload@.subrange(done, pos as int),
            out@ == out_done + dec.emitted_view(),
            !mid ==> dec.fed_view().len() == 0 && dec.emitted_view().len() == 0 && done == pos,
            mid ==> dec.fed_view().len() > 0,
            match inflate_all(payload@.skip(done)) {
                Some(rest) => inflate_all(payload@) == Some(out_done + rest),
                None => inflate_all(payload@) is None,
            },
        ensures
            pos == len && !mid,
        decreases
            len - pos,
            (if mid { 1int } else { 0int }),
            partial_out(dec.fed_view()).len() - dec.emitted_view().len(),
    {
        if !mid && pos >= len {
            break;
        }
        let end = if len - pos > 65536 {
            pos + 65536
        } else {
            len
        };
        let window = vstd::slice::slice_subrange(payload.as_slice(), pos, end);
        let (k, mut produced, status) = dec.step(window);
        out.append(&mut produced);
        proof {
            assert(window@.take(k as int) =~= payload@.subrange(pos as int, pos + k as int));
            assert(payload@.subrange(done, pos as int) + payload@.subrange(
                pos as int,
                pos + k as int,
            ) =~= payload@.subrange(done, pos + k as int));
            assert(out@ =~= out_done + dec.emitted_view());
        }
        pos = pos + k;
        match status {
            StepStatus::FrameComplete => {
                proof {
                    let fed = dec.fed_view();
                    let chunk = dec.emitted_view();
                    let s = payload@.skip(done);
                    let tail = payload@.skip(pos as int);
                    assert(s =~= fed + tail);
                    assert(frame_end(fed + tail) == Some(fed.len() as nat));
                    assert(s.take(fed.len() as int) =~= fed);
                    assert(s.skip(fed.len() as int) =~= tail);
                    match inflate_all(tail) {
                        Some(r2) => {
                            assert(inflate_all(s) == Some(chunk + r2));
                            match inflate_all(s) {
                                Some(rest) => {
                                    assert(inflate_all(payload@) == Some(out_done + rest));
                                    assert(out_done + (chunk + r2) =~= (out_done + chunk) + r2);
                                },
                                None => {},
                            }
                        },
                        None => {
                            assert(inflate_all(s) is None);
                        },
                    }
                    out_done = out_done + chunk;
                    done = pos as int;
                }
                dec = FrameDecoder::fresh();
                mid = false;
                proof {
                    assert(out@ =~= out_done + dec.emitted_view());
                    assert(payload@.subrange(done, pos as int) =~= Seq::<u8>::empty());
                }
            },
            StepStatus::NeedsMoreInput => {
                if pos >= len {
                    proof {
                        let fed = dec.fed_view();
                        assert(fed + Seq::<u8>::empty() =~= fed);
                        assert(payload@.skip(done) =~= fed);
                        assert(fed.len() > 0);
                        match frame_end(fed + Seq::<u8>::empty()) {
                            Some(n) => {
                                assert(n > fed.len());
                            },
                            None => {},
                        }
                        assert(inflate_all(payload@.skip(done)) is None);
                    }
                    return Err(CodecError::CompressionError);
                }
                mid = true;
            },
            StepStatus::NeedsMoreOutput => {
                mid = true;
            },
            StepStatus::Failed => {
                proof {
                    let fed = dec.fed_view();
                    let s = payload@.skip(done);
                    let tail = payload@.skip(pos as int);
                    assert(s =~= fed + tail);
                    assert(frame_end(fed + tail) is None);
                    assert(s.len() > 0);
                    assert(inflate_all(s) is None);
                }
                return Err(CodecError::CompressionError);
            },
        }
    }
    proof {
        assert(payload@.skip(done) =~= Seq::<u8>::empty());
        assert(inflate_all(payload@.skip(done)) == Some(Seq::<u8>::empty()));
        assert(out_done + Seq::<u8>::empty() =~= out_done);
        assert(out@ =~= out_done);
    }
    Ok(out)
}

// ── The passphrase envelope ──────────────────────────────────────────────
//
// The envelope is not a function of its inputs alone — sealing draws a
// random salt and nonce — so the names below speak of the container bytes:
// opening a given container under a given passphrase is deterministic.

/// Whether `data` parses as a passphrase-sealed container: the format
/// marker and header are well formed and name passphrase decryption.
pub uninterp spec fn is_envelope(data: Seq<u8>) -> bool;

/// What opening the container under the passphrase yields: `Some(payload)`
/// when the key derived from the passphrase authenticates the whole
/// ciphertext, `None` otherwise (wrong passphrase or corrupted bytes).
pub uninterp spec fn open_envelope(data: Seq<u8>, pass: Seq<char>) -> Option<Seq<u8>>;

/// Relies on age's passphrase encryption (`Encryptor::with_user_passphrase`
/// and its streaming writer): the resulting container is a well-formed
/// envelope that opens to exactly the payload under the sealing passphrase,
/// and opens under no other passphrase.
#[verifier::external_body]
fn seal_envelope(payload: &Vec<u8>, pass: &str) -> (r: Result<Vec<u8>, CodecError>)
    ensures
        r matches Ok(c) ==> is_envelope(c@) && open_envelope(c@, pass@) == Some(payload@),
        r matches Ok(c) ==> forall|other: Seq<char>| other != pass@ ==> #[trigger] open_envelope(c@, other) is None,
{
    let enc = age::Encryptor::with_user_passphrase(age::secrecy::Secret::new(pass.to_string()));
    let mut sealed: Vec<u8> = Vec::new();
    let mut w = match enc.wrap_output(&mut sealed) {
        Ok(w) => w,
        Err(_) => return Err(CodecError::IOError),
    };
    if std::io::Write::write_all(&mut w, payload.as_slice()).is_err() {
        return Err(CodecError::IOError);
    }
    if w.finish().is_err() {
        return Err(CodecError::IOError);
    }
    Ok(sealed)
}

/// Relies on age's `Decryptor`: header parsing decides `is_envelope`
/// (anything but a passphrase-sealed file is a format error), and
/// authenticated decryption under the passphrase decides `open_envelope`.
/// The accepted key-derivation work factor is capped by a fixed constant so
/// that opening a given container is the same on every machine.
#[verifier::external_body]
fn open_sealed(container: &Vec<u8>, pass: &str) -> (r: Result<Vec<u8>, CodecError>)
    ensures
        match r {
            Ok(v) => is_envelope(container@) && open_envelope(container@, pass@) == Some(v@),
            Err(e) => if e == CodecError::FormatError {
                !is_envelope(container@)
            } else {
                e == CodecError::DecryptionError && is_envelope(container@) && open_envelope(container@, pass@) is None
            },
        },
{
    let dec = match age::Decryptor::new(container.as_slice()) {
        Ok(age::Decryptor::Passphrase(d)) => d,
        _ => return Err(CodecError::FormatError),
    };
    let secret = age::secrecy::Secret::new(pass.to_string());
    let mut reader = match dec.decrypt(&secret, Some(30)) {
        Ok(r) => r,
        Err(_) => return Err(CodecError::DecryptionError),
    };
    let mut payload: Vec<u8> = Vec::new();
    if std::io::Read::read_to_end(&mut reader, &mut payload).is_err() {
        return Err(CodecError::DecryptionError);
    }
    Ok(payload)
}

// ── Encode and decode ────────────────────────────────────────────────────

/// `fs` is a frame-by-frame encoding of the chunk sequence `xs`.
pub open spec fn good_framing(fs: Seq<Seq<u8>>, xs: Seq<Seq<u8>>) -> bool {
    &&& fs.len() == xs.len()
    &&& forall|i: int| 0 <= i < fs.len() ==> is_frame_for(#[trigger] fs[i], xs[i])
}

/// What the encoder guarantees of a container it produced for plaintext `x`
/// under passphrase `pass`: it is a well-formed envelope, it opens under
/// `pass` (and under no other passphrase) to a concatenation of frames that
/// encode some chunking of `x`.
pub open spec fn encoded_for(container: Seq<u8>, pass: Seq<char>, x: Seq<u8>) -> bool {
    &&& is_envelope(container)
    &&& open_envelope(container, pass) matches Some(p) && (exists|fs: Seq<Seq<u8>>, xs: Seq<Seq<u8>>|
        {
            &&& #[trigger] good_framing(fs, xs)
            &&& concat_all(xs) == x
            &&& p == concat_all(fs)
        })
    &&& forall|other: Seq<char>| other != pass ==> #[trigger] open_envelope(container, other) is None
}

/// A concatenation of frames that encode `xs` inflates, frame by frame, to
/// the concatenation of `xs`.
pub proof fn lemma_good_framing_inflates(fs: Seq<Seq<u8>>, xs: Seq<Seq<u8>>)
    requires
        good_framing(fs, xs),
    ensures
        inflate_all(concat_all(fs)) == Some(concat_all(xs)),
    decreases fs.len(),
{
    if fs.len() == 0 {
        assert(concat_all(fs) =~= Seq::<u8>::empty());
        assert(concat_all(xs) =~= Seq::<u8>::empty());
    } else {
        let f0 = fs[0];
        let x0 = xs[0];
        let s = concat_all(fs);
        let rest = concat_all(fs.drop_first());
        assert(is_frame_for(f0, x0));
        assert(s == f0 + rest);
        assert(frame_end(f0 + rest) == Some(f0.len() as nat));
        assert(s.len() >= f0.len()) by {
            assert(s.len() == f0.len() + rest.len());
        }
        assert(s.take(f0.len() as int) =~= f0);
        assert(s.skip(f0.len() as int) =~= rest);
        assert(good_framing(fs.drop_first(), xs.drop_first())) by {
            assert forall|i: int| 0 <= i < fs.drop_first().len() implies is_frame_for(
                #[trigger] fs.drop_first()[i],
                xs.drop_first()[i],
            ) by {
                assert(fs.drop_first()[i] == fs[i + 1]);
                assert(is_frame_for(fs[i + 1], xs[i + 1]));
            }
        }
        lemma_good_framing_inflates(fs.drop_first(), xs.drop_first());
        assert(inflate_all(s) == Some(x0 + concat_all(xs.drop_first())));
        assert(concat_all(xs) == x0 + concat_all(xs.drop_first()));
    }
}

/// Round trip: any container the encoder produced for plaintext `x` under a
/// passphrase opens under that passphrase and inflates back to exactly `x`.
pub proof fn lemma_round_trip(container: Seq<u8>, pass: Seq<char>, x: Seq<u8>)
    requires
        encoded_for(container, pass, x),
    ensures
        open_envelope(container, pass) matches Some(p) && inflate_all(p) == Some(x),
{
    let p = open_envelope(container, pass).unwrap();
    let (fs, xs) = choose|fs: Seq<Seq<u8>>, xs: Seq<Seq<u8>>|
        {
            &&& #[trigger] good_framing(fs, xs)
            &&& concat_all(xs) == x
            &&& p == concat_all(fs)
        };
    lemma_good_framing_inflates(fs, xs);
}

/// Wrong passphrase: a container sealed under one passphrase opens under no
/// other; the decoder then fails closed with `DecryptionError` and emits no
/// plaintext byte.
pub proof fn lemma_wrong_passphrase(container: Seq<u8>, pass: Seq<char>, other: Seq<char>, x: Seq<u8>)
    requires
        encoded_for(container, pass, x),
        other != pass,
    ensures
        open_envelope(container, other) is None,
{
}

/// Worker-count invariance: two containers encoded from the same plaintext
/// — under any passphrases, worker counts and presets — both decode to that
/// same plaintext, however much the container bytes differ.
pub proof fn lemma_worker_invariance(
    c1: Seq<u8>,
    pass1: Seq<char>,
    c2: Seq<u8>,
    pass2: Seq<char>,
    x: Seq<u8>,
)
    requires
        encoded_for(c1, pass1, x),
        encoded_for(c2, pass2, x),
    ensures
        open_envelope(c1, pass1) matches Some(p1) && inflate_all(p1) == Some(x),
        open_envelope(c2, pass2) matches Some(p2) && inflate_all(p2) == Some(x),
{
    lemma_round_trip(c1, pass1, x);
    lemma_round_trip(c2, pass2, x);
}

/// Encode: read the plaintext as chunks (one whole-input frame when
/// `workers <= 1`, fixed-size chunks compressed across a worker pool
/// otherwise), concatenate the frames in chunk order, and seal the result
/// under the passphrase.  On success the container provably round-trips:
/// it opens under the passphrase to a payload that inflates to exactly the
/// plaintext, and opens under no other passphrase.
pub fn encode(plaintext: &Vec<u8>, passphrase: &str, preset: QualityPreset, workers: usize) -> (r:
    Result<Vec<u8>, CodecError>)
    ensures
        r matches Ok(c) ==> encoded_for(c@, passphrase@, plaintext@),
        r matches Ok(c) ==> open_envelope(c@, passphrase@) matches Some(p) && inflate_all(p)
            == Some(plaintext@),
{
    let quality = preset.level();
    let mut frames: Vec<Vec<u8>> = Vec::new();
    let ghost mut xs: Seq<Seq<u8>> = Seq::empty();
    if workers <= 1 {
        if plaintext.len() > 0 {
            let f = compress_frame(plaintext.as_slice(), quality);
            frames.push(f);
            proof {
                xs = seq![plaintext@];
            }
        }
    } else {
        let chunks = split_chunks(plaintext, CHUNK_SIZE);
        match compress_chunks_parallel(&chunks, quality, workers) {
            Ok(fr) => {
                frames = fr;
            },
            Err(e) => {
                return Err(e);
            },
        }
        proof {
            xs = chunks@.map_values(|v: Vec<u8>| v@);
        }
    }
    let ghost fs: Seq<Seq<u8>> = frames@.map_values(|v: Vec<u8>| v@);
    proof {
        if workers <= 1 {
            if plaintext@.len() > 0 {
                assert(fs =~= seq![frames@[0]@]);
                assert(concat_all(xs) == plaintext@ + concat_all(xs.drop_first()));
                assert(xs.drop_first() =~= Seq::<Seq<u8>>::empty());
                assert(plaintext@ + Seq::<u8>::empty() =~= plaintext@);
            } else {
                assert(concat_all(xs) =~= plaintext@);
            }
        } else {
            lemma_chunks_concat(plaintext@, CHUNK_SIZE as nat);
            assert(xs == spec_chunks(plaintext@, CHUNK_SIZE as nat));
        }
        assert(good_framing(fs, xs));
        assert(concat_all(xs) == plaintext@);
    }
    let payload = concat_frames(&frames);
    let container = match seal_envelope(&payload, passphrase) {
        Ok(c) => c,
        Err(e) => {
            return Err(e);
        },
    };
    proof {
        assert(payload@ == concat_all(fs));
        assert(encoded_for(container@, passphrase@, plaintext@));
        lemma_round_trip(container@, passphrase@, plaintext@);
    }
    Ok(container)
}

/// Decode: open the envelope under the passphrase (`FormatError` when the
/// container is not a passphrase-sealed envelope, `DecryptionError` when
/// authentication fails — a wrong passphrase and corrupted bytes are
/// indistinguishable — with no plaintext byte emitted), then inflate the
/// payload frame by frame (`CompressionError` when it is not a
/// concatenation of complete frames).
pub fn decode(container: &Vec<u8>, passphrase: &str) -> (r: Result<Vec<u8>, CodecError>)
    ensures
        !is_envelope(container@) ==> r == Err::<Vec<u8>, CodecError>(CodecError::FormatError),
        is_envelope(container@) && open_envelope(container@, passphrase@) is None ==> r == Err::<
            Vec<u8>,
            CodecError,
        >(CodecError::DecryptionError),
        is_envelope(container@) ==> (open_envelope(container@, passphrase@) matches Some(p) ==> {
            &&& (inflate_all(p) matches Some(y) ==> r matches Ok(v) && v@ == y)
            &&& (inflate_all(p) is None ==> r == Err::<Vec<u8>, CodecError>(
                CodecError::CompressionError,
            ))
        }),
{
    let payload = match open_sealed(container, passphrase) {
        Ok(p) => p,
        Err(e) => {
            return Err(e);
        },
    };
    decode_frames(&payload)
}


} // verus!
