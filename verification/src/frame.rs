//! The wire unit of a gRPC-Web body: a five byte header (one flag byte, four
//! bytes of big-endian payload length) followed by the payload.

use vstd::prelude::*;
use vstd::slice::{slice_subrange, slice_to_vec};

verus! {

/// Bytes in a frame header.
pub const HEADER_LEN: usize = 5;

/// The flag bit that marks a frame as the terminal (trailer) frame.
pub const TRAILER_FLAG: u8 = 0x80;

/// One decoded frame.
#[derive(Debug)]
pub struct Frame {
    pub is_terminal: bool,
    pub payload: Vec<u8>,
}

/// The mathematical content of a [`Frame`].
pub ghost struct FrameView {
    pub is_terminal: bool,
    pub payload: Seq<u8>,
}

impl View for Frame {
    type V = FrameView;

    open spec fn view(&self) -> FrameView {
        FrameView { is_terminal: self.is_terminal, payload: self.payload@ }
    }
}

/// The views of a sequence of frames, in order.
pub open spec fn frame_views(frames: Seq<Frame>) -> Seq<FrameView> {
    frames.map_values(|f: Frame| f@)
}

/// Whether a flag byte marks a terminal frame: bit `0x80`, all other bits ignored.
pub open spec fn flag_is_terminal(flags: u8) -> bool {
    flags & 0x80 != 0
}

/// The big-endian number held in `s[at..at + 4]`.
pub open spec fn be32(s: Seq<u8>, at: int) -> int {
    (s[at] as int) * 0x100_0000 + (s[at + 1] as int) * 0x1_0000 + (s[at + 2] as int) * 0x100 + (s[at
        + 3] as int)
}

/// The header of a frame with `len` payload bytes.
pub open spec fn header_bytes(is_terminal: bool, len: nat) -> Seq<u8> {
    seq![
        if is_terminal { 0x80u8 } else { 0u8 },
        (len / 0x100_0000) as u8,
        ((len / 0x1_0000) % 0x100) as u8,
        ((len / 0x100) % 0x100) as u8,
        (len % 0x100) as u8,
    ]
}

/// The bytes of one frame on the wire.
pub open spec fn frame_bytes(f: FrameView) -> Seq<u8> {
    header_bytes(f.is_terminal, f.payload.len()) + f.payload
}

/// The bytes of a sequence of frames on the wire, one after the other.
pub open spec fn frames_bytes(fs: Seq<FrameView>) -> Seq<u8>
    decreases fs.len(),
{
    if fs.len() == 0 {
        Seq::empty()
    } else {
        frame_bytes(fs[0]) + frames_bytes(fs.skip(1))
    }
}

/// Whether `s` starts with a complete frame: a whole header and as many
/// payload bytes as the header declares.
pub open spec fn has_frame(s: Seq<u8>) -> bool {
    s.len() >= 5 && s.len() >= 5 + be32(s, 1)
}

/// The frame that `s` starts with.
pub open spec fn first_frame(s: Seq<u8>) -> FrameView {
    FrameView { is_terminal: flag_is_terminal(s[0]), payload: s.subrange(5, 5 + be32(s, 1)) }
}

/// The complete frames of `s`, in wire order.
pub open spec fn frames_of(s: Seq<u8>) -> Seq<FrameView>
    decreases s.len(),
{
    if has_frame(s) {
        seq![first_frame(s)] + frames_of(s.skip(5 + be32(s, 1)))
    } else {
        Seq::empty()
    }
}

/// What is left of `s` behind its complete frames: the bytes of a frame that
/// has not arrived in full, or nothing.
pub open spec fn tail_of(s: Seq<u8>) -> Seq<u8>
    decreases s.len(),
{
    if has_frame(s) {
        tail_of(s.skip(5 + be32(s, 1)))
    } else {
        s
    }
}

/// Where the decoder stands between two chunks.
#[derive(Clone, Copy, Debug, PartialEq, Eq, Structural)]
pub enum DecodePhase {
    /// Fewer than five bytes of the next header have arrived.
    AwaitingHeader,
    /// A header has arrived and `remaining` bytes of its payload are missing.
    AwaitingPayload { is_terminal: bool, remaining: u32 },
}

/// The phase of a decoder that holds the unfinished bytes `s`.
pub open spec fn phase_of(s: Seq<u8>) -> DecodePhase {
    if s.len() < 5 {
        DecodePhase::AwaitingHeader
    } else {
        DecodePhase::AwaitingPayload {
            is_terminal: flag_is_terminal(s[0]),
            remaining: (5 + be32(s, 1) - s.len()) as u32,
        }
    }
}

/// The tail never starts with a complete frame.
pub proof fn lemma_tail_has_no_frame(s: Seq<u8>)
    ensures
        !has_frame(tail_of(s)),
        tail_of(tail_of(s)) == tail_of(s),
        frames_of(tail_of(s)) == Seq::<FrameView>::empty(),
    decreases s.len(),
{
    if has_frame(s) {
        lemma_tail_has_no_frame(s.skip(5 + be32(s, 1)));
    }
}

/// Decoding is indifferent to where the input is cut: the frames of `a + b`
/// are the frames of `a` followed by the frames of what `a` left unfinished
/// together with `b`.
pub proof fn lemma_frames_split(a: Seq<u8>, b: Seq<u8>)
    ensures
        frames_of(a + b) == frames_of(a) + frames_of(tail_of(a) + b),
        tail_of(a + b) == tail_of(tail_of(a) + b),
    decreases a.len(),
{
    if has_frame(a) {
        let k: int = 5 + be32(a, 1);
        assert(be32(a + b, 1) == be32(a, 1));
        assert(has_frame(a + b));
        assert((a + b).skip(k) == a.skip(k) + b);
        assert((a + b).subrange(5, k) == a.subrange(5, k));
        assert(first_frame(a + b) == first_frame(a));
        lemma_frames_split(a.skip(k), b);
        assert(frames_of(a + b) == seq![first_frame(a)] + (frames_of(a.skip(k)) + frames_of(
            tail_of(a) + b,
        )));
    }
}

/// The header written for `len` holds `len`.
pub proof fn lemma_header_length(is_terminal: bool, len: nat)
    requires
        len <= u32::MAX,
    ensures
        header_bytes(is_terminal, len).len() == 5,
        be32(header_bytes(is_terminal, len), 1) == len,
        flag_is_terminal(header_bytes(is_terminal, len)[0]) == is_terminal,
{
    assert(0x80u8 & 0x80 != 0) by (bit_vector);
    assert(0u8 & 0x80 == 0) by (bit_vector);
}

/// A frame written in front of `rest` is the first frame read back.
pub proof fn lemma_frame_round_trip(f: FrameView, rest: Seq<u8>)
    requires
        f.payload.len() <= u32::MAX,
    ensures
        frames_of(frame_bytes(f) + rest) == seq![f] + frames_of(rest),
        tail_of(frame_bytes(f) + rest) == tail_of(rest),
{
    let n: int = f.payload.len() as int;
    let s = frame_bytes(f) + rest;
    lemma_header_length(f.is_terminal, f.payload.len());
    let h = header_bytes(f.is_terminal, f.payload.len());
    assert(s[0] == h[0] && s[1] == h[1] && s[2] == h[2] && s[3] == h[3] && s[4] == h[4]);
    assert(be32(s, 1) == be32(h, 1));
    assert(s.subrange(5, 5 + n) == f.payload);
    assert(s.skip(5 + n) == rest);
    assert(first_frame(s) == f);
}

/// Every frame written is read back, in order, and nothing is left over.
pub proof fn lemma_frames_round_trip(fs: Seq<FrameView>)
    requires
        forall|i: int| 0 <= i < fs.len() ==> (#[trigger] fs[i]).payload.len() <= u32::MAX,
    ensures
        frames_of(frames_bytes(fs)) == fs,
        tail_of(frames_bytes(fs)) == Seq::<u8>::empty(),
    decreases fs.len(),
{
    if fs.len() > 0 {
        let rest = fs.skip(1);
        assert forall|i: int| 0 <= i < rest.len() implies (#[trigger] rest[i]).payload.len()
            <= u32::MAX by {
            assert(rest[i] == fs[i + 1]);
        }
        lemma_frames_round_trip(rest);
        lemma_frame_round_trip(fs[0], frames_bytes(rest));
        assert(seq![fs[0]] + rest == fs);
    }
}

/// The bytes of a run of frames with one more frame behind it.
pub proof fn lemma_frames_bytes_push(fs: Seq<FrameView>, f: FrameView)
    ensures
        frames_bytes(fs.push(f)) == frames_bytes(fs) + frame_bytes(f),
    decreases fs.len(),
{
    if fs.len() == 0 {
        let one = fs.push(f);
        assert(one[0] == f);
        assert(one.skip(1) == Seq::<FrameView>::empty());
        assert(frames_bytes(one.skip(1)) == Seq::<u8>::empty());
        assert(frames_bytes(one) == frame_bytes(f) + frames_bytes(one.skip(1)));
        assert(frames_bytes(fs) == Seq::<u8>::empty());
    } else {
        assert(fs.push(f).skip(1) == fs.skip(1).push(f));
        lemma_frames_bytes_push(fs.skip(1), f);
        assert(frames_bytes(fs.push(f)) == frame_bytes(fs[0]) + (frames_bytes(fs.skip(1))
            + frame_bytes(f)));
    }
}

/// Appends `src` to `dst`.
pub fn append_bytes(dst: &mut Vec<u8>, src: &[u8])
    ensures
        final(dst)@ == old(dst)@ + src@,
{
    let mut i: usize = 0;
    while i < src.len()
        invariant
            i <= src@.len(),
            dst@ == old(dst)@ + src@.subrange(0, i as int),
        decreases src@.len() - i,
    {
        dst.push(src[i]);
        i = i + 1;
    }
    assert(src@.subrange(0, src@.len() as int) == src@);
}

/// Writes one frame: the header for `payload` and the payload itself.
pub fn encode(payload: &[u8], is_terminal: bool) -> (out: Vec<u8>)
    requires
        payload@.len() <= u32::MAX,
    ensures
        out@ == frame_bytes(FrameView { is_terminal, payload: payload@ }),
{
    let len: usize = payload.len();
    let mut out: Vec<u8> = Vec::new();
    out.push(if is_terminal { TRAILER_FLAG } else { 0u8 });
    out.push((len / 0x100_0000) as u8);
    out.push(((len / 0x1_0000) % 0x100) as u8);
    out.push(((len / 0x100) % 0x100) as u8);
    out.push((len % 0x100) as u8);
    assert(out@ == header_bytes(is_terminal, len as nat));
    append_bytes(&mut out, payload);
    out
}

/// The incremental frame decoder: it keeps the bytes of the frame that has
/// not arrived in full and gives out each frame once its last byte is in.
pub struct DecodeState {
    residual: Vec<u8>,
}

impl DecodeState {
    #[verifier::type_invariant]
    spec fn inv(self) -> bool {
        !has_frame(self.residual@)
    }

    /// The bytes received that belong to a frame not yet complete.
    pub closed spec fn pending(&self) -> Seq<u8> {
        self.residual@
    }

    /// A decoder that has seen no input.
    pub fn new() -> (state: Self)
        ensures
            state.pending() == Seq::<u8>::empty(),
    {
        DecodeState { residual: Vec::new() }
    }

    /// Whether a frame has arrived in part.
    pub fn is_mid_frame(&self) -> (unfinished: bool)
        ensures
            unfinished == (self.pending().len() > 0),
    {
        self.residual.len() > 0
    }

    /// The phase the decoder is in.
    pub fn phase(&self) -> (phase: DecodePhase)
        ensures
            phase == phase_of(self.pending()),
    {
        proof {
            use_type_invariant(self);
        }
        if self.residual.len() < HEADER_LEN {
            DecodePhase::AwaitingHeader
        } else {
            let declared: u32 = read_length(&self.residual, 0);
            let got: usize = self.residual.len() - HEADER_LEN;
            let flags: u8 = self.residual[0];
            DecodePhase::AwaitingPayload {
                is_terminal: flags & TRAILER_FLAG != 0,
                remaining: declared - got as u32,
            }
        }
    }

    /// Takes in one chunk. Returns the frames that the chunk completes, in
    /// wire order, and whether a frame is left unfinished. No byte is dropped:
    /// what belongs to an unfinished frame is kept for the next chunk.
    pub fn decode_step(&mut self, chunk: &[u8]) -> (out: (Vec<Frame>, bool))
        ensures
            frame_views(out.0@) == frames_of(old(self).pending() + chunk@),
            final(self).pending() == tail_of(old(self).pending() + chunk@),
            out.1 == (final(self).pending().len() > 0),
    {
        let ghost input = self.residual@ + chunk@;
        let mut buf: Vec<u8> = Vec::new();
        append_bytes(&mut buf, self.residual.as_slice());
        append_bytes(&mut buf, chunk);
        let mut frames: Vec<Frame> = Vec::new();
        let mut pos: usize = 0;
        assert(input.skip(0) == input);
        loop
            invariant
                buf@ == input,
                pos <= buf@.len(),
                frames_of(input) == frame_views(frames@) + frames_of(input.skip(pos as int)),
                tail_of(input) == tail_of(input.skip(pos as int)),
            ensures
                !has_frame(input.skip(pos as int)),
            decreases buf@.len() - pos,
        {
            let ghost rest = input.skip(pos as int);
            let avail: usize = buf.len() - pos;
            if avail < HEADER_LEN {
                break ;
            }
            let declared: u32 = read_length(&buf, pos);
            assert(be32(rest, 1) == declared);
            if avail - HEADER_LEN < declared as usize {
                break ;
            }
            let start: usize = pos + HEADER_LEN;
            let end: usize = start + declared as usize;
            let flags: u8 = buf[pos];
            let payload: Vec<u8> = slice_to_vec(slice_subrange(buf.as_slice(), start, end));
            let frame = Frame { is_terminal: flags & TRAILER_FLAG != 0, payload };
            proof {
                assert(has_frame(rest));
                assert(rest.subrange(5, 5 + declared) == input.subrange(start as int, end as int));
                assert(frame@ == first_frame(rest));
                assert(rest.skip(5 + declared) == input.skip(end as int));
                assert(frame_views(frames@.push(frame)) == frame_views(frames@) + seq![frame@]);
            }
            frames.push(frame);
            pos = end;
        }
        let rest: Vec<u8> = slice_to_vec(slice_subrange(buf.as_slice(), pos, buf.len()));
        assert(rest@ == input.skip(pos as int));
        let unfinished: bool = rest.len() > 0;
        self.residual = rest;
        (frames, unfinished)
    }
}

/// Reads the payload length from the header that starts at `at`.
fn read_length(buf: &Vec<u8>, at: usize) -> (len: u32)
    requires
        at + 5 <= buf.len(),
    ensures
        len == be32(buf@.skip(at as int), 1),
{
    let b1: u32 = buf[at + 1] as u32;
    let b2: u32 = buf[at + 2] as u32;
    let b3: u32 = buf[at + 3] as u32;
    let b4: u32 = buf[at + 4] as u32;
    b1 * 0x100_0000 + b2 * 0x1_0000 + b3 * 0x100 + b4
}

} // verus!
