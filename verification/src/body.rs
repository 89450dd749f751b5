//! The body adapter: it takes the chunks of one response body as the
//! transport delivers them, undoes the text encoding, cuts the bytes into
//! frames, gives out the payload of every data frame as a message, and keeps
//! the block of the terminal frame as the trailers of the call.

use vstd::prelude::*;
use vstd::slice::slice_to_vec;
use crate::base64::{
    encode as base64_encode, encode_text, groups_bytes, groups_ok, leftover, lemma_groups_split,
    lemma_leftover_short, lemma_text_round_trip, Base64Decoder,
};
use crate::encoding::Encoding;
use crate::errors::ClientError;
use crate::frame::{
    append_bytes, encode as frame_encode, frame_bytes, frame_views, frames_bytes, frames_of,
    has_frame, lemma_frames_bytes_push, lemma_frames_round_trip, lemma_frames_split,
    lemma_tail_has_no_frame, tail_of,
    DecodeState, Frame, FrameView,
};
use crate::trailers::{
    block_bytes, entry_clean, lemma_block_round_trip, parse_block, try_parse, BlockView,
    EntryView, Metadata, TrailerParse,
};

verus! {

/// What a run of frames comes to, read behind what was seen before.
pub ghost struct SortView {
    /// The payloads of the data frames, in order.
    pub messages: Seq<Seq<u8>>,
    /// What reading the terminal frame's block came to, once there was one.
    pub trailers: Option<BlockView>,
    /// Whether a frame follows the terminal frame.
    pub extra: bool,
}

/// Sorts the frames `fs` into messages and trailers. `seen` is what an
/// earlier terminal frame came to, if there was one: any frame after it is
/// one too many.
pub open spec fn sort_frames(seen: Option<BlockView>, fs: Seq<FrameView>) -> SortView
    decreases fs.len(),
{
    if fs.len() == 0 {
        SortView { messages: Seq::empty(), trailers: seen, extra: false }
    } else if seen is Some {
        SortView { messages: Seq::empty(), trailers: seen, extra: true }
    } else if fs[0].is_terminal {
        sort_frames(Some(parse_block(fs[0].payload)), fs.skip(1))
    } else {
        let r = sort_frames(None, fs.skip(1));
        SortView { messages: seq![fs[0].payload] + r.messages, trailers: r.trailers, extra: r.extra }
    }
}

/// The state of an adapter between two chunks.
pub ghost struct BodyView {
    pub encoding: Encoding,
    /// Characters of a base64 group that has not arrived in full.
    pub text: Seq<u8>,
    /// Bytes of a frame that has not arrived in full.
    pub pending: Seq<u8>,
    /// What reading the terminal frame's block came to, once it has arrived.
    pub trailers: Option<BlockView>,
    /// The error that ended the body, if one did.
    pub failed: Option<ClientError>,
}

/// The state of an adapter that has taken in nothing.
pub open spec fn start(encoding: Encoding) -> BodyView {
    BodyView { encoding, text: Seq::empty(), pending: Seq::empty(), trailers: None, failed: None }
}

/// The state of an adapter that `error` has ended.
pub open spec fn ended(encoding: Encoding, error: ClientError) -> BodyView {
    BodyView {
        encoding,
        text: Seq::empty(),
        pending: Seq::empty(),
        trailers: None,
        failed: Some(error),
    }
}

/// Whether the text `text` can be read under `encoding`.
pub open spec fn text_ok(encoding: Encoding, text: Seq<u8>) -> bool {
    encoding == Encoding::Identity || groups_ok(text)
}

/// The bytes that the text `text` stands for under `encoding`.
pub open spec fn unwrapped(encoding: Encoding, text: Seq<u8>) -> Seq<u8> {
    match encoding {
        Encoding::Identity => text,
        Encoding::Base64 => groups_bytes(text),
    }
}

/// The part of `text` that cannot be read yet under `encoding`.
pub open spec fn text_left(encoding: Encoding, text: Seq<u8>) -> Seq<u8> {
    match encoding {
        Encoding::Identity => Seq::empty(),
        Encoding::Base64 => leftover(text),
    }
}

/// One chunk taken in: the state after it, and the messages it completes
/// or the error it runs into. A body that an error has ended stays ended.
pub open spec fn feed(v: BodyView, chunk: Seq<u8>) -> (BodyView, Result<Seq<Seq<u8>>, ClientError>) {
    if v.failed is Some {
        (v, Err(v.failed->Some_0))
    } else {
        let text = v.text + chunk;
        if !text_ok(v.encoding, text) {
            (ended(v.encoding, ClientError::Encoding), Err(ClientError::Encoding))
        } else {
            let data = v.pending + unwrapped(v.encoding, text);
            let sorted = sort_frames(v.trailers, frames_of(data));
            if sorted.extra {
                (ended(v.encoding, ClientError::FrameDecode), Err(ClientError::FrameDecode))
            } else {
                (
                    BodyView {
                        encoding: v.encoding,
                        text: text_left(v.encoding, text),
                        pending: tail_of(data),
                        trailers: sorted.trailers,
                        failed: None,
                    },
                    Ok(sorted.messages),
                )
            }
        }
    }
}

/// The end of the stream: the trailers, or the reason why there are none.
pub open spec fn finished(v: BodyView) -> Result<Seq<EntryView>, ClientError> {
    if v.failed is Some {
        Err(v.failed->Some_0)
    } else if v.text.len() > 0 {
        Err(ClientError::Encoding)
    } else if v.pending.len() > 0 {
        Err(ClientError::UnexpectedEof)
    } else {
        match v.trailers {
            None => Err(ClientError::MissingTrailers),
            Some(BlockView::Incomplete) => Err(ClientError::HttpIncompleteParseError),
            Some(BlockView::Malformed { .. }) => Err(ClientError::HttpParseError),
            Some(BlockView::Parsed(entries)) => Ok(entries),
        }
    }
}

/// What a body came to: its messages in order, and its trailers.
pub ghost struct Drained {
    pub messages: Seq<Seq<u8>>,
    pub trailers: Seq<EntryView>,
}

/// The chunks `chunks` taken in one after the other from the state `v`, and
/// then the end of the stream.
pub open spec fn run(v: BodyView, chunks: Seq<Seq<u8>>) -> Result<Drained, ClientError>
    decreases chunks.len(),
{
    if chunks.len() == 0 {
        match finished(v) {
            Ok(trailers) => Ok(Drained { messages: Seq::empty(), trailers }),
            Err(e) => Err(e),
        }
    } else {
        let (next, out) = feed(v, chunks[0]);
        match out {
            Err(e) => Err(e),
            Ok(messages) => match run(next, chunks.skip(1)) {
                Ok(d) => Ok(Drained { messages: messages + d.messages, trailers: d.trailers }),
                Err(e) => Err(e),
            },
        }
    }
}

/// The outcome `r` of a run, behind the messages `messages` that came before.
pub open spec fn behind_messages(messages: Seq<Seq<u8>>, r: Result<Drained, ClientError>) -> Result<
    Drained,
    ClientError,
> {
    match r {
        Ok(d) => Ok(Drained { messages: messages + d.messages, trailers: d.trailers }),
        Err(e) => Err(e),
    }
}

/// The chunks `chunks` put together.
pub open spec fn concat(chunks: Seq<Seq<u8>>) -> Seq<u8>
    decreases chunks.len(),
{
    if chunks.len() == 0 {
        Seq::empty()
    } else {
        chunks[0] + concat(chunks.skip(1))
    }
}

/// What the whole stream `stream` comes to when it is taken in at once.
pub open spec fn decode_stream(encoding: Encoding, stream: Seq<u8>) -> Result<Drained, ClientError> {
    run(start(encoding), seq![stream])
}

/// The views of a list of byte strings.
pub open spec fn byte_views(items: Seq<Vec<u8>>) -> Seq<Seq<u8>> {
    Seq::new(items.len(), |i: int| items[i]@)
}

/// The data frames that carry the messages `messages`.
pub open spec fn data_frames(messages: Seq<Seq<u8>>) -> Seq<FrameView> {
    Seq::new(messages.len(), |i: int| FrameView { is_terminal: false, payload: messages[i] })
}

/// The frames of a body: one data frame for each message and, where the
/// body has trailers, the terminal frame with their block.
pub open spec fn body_frames(messages: Seq<Seq<u8>>, trailers: Option<Seq<EntryView>>) -> Seq<
    FrameView,
> {
    match trailers {
        Some(entries) => data_frames(messages).push(
            FrameView { is_terminal: true, payload: block_bytes(entries) },
        ),
        None => data_frames(messages),
    }
}

/// The bytes `data` as they stand on the wire under `encoding`.
pub open spec fn wire(encoding: Encoding, data: Seq<u8>) -> Seq<u8> {
    match encoding {
        Encoding::Identity => data,
        Encoding::Base64 => encode_text(data),
    }
}

/// The body written for the messages `messages` and the trailers `trailers`.
pub open spec fn body_bytes(
    encoding: Encoding,
    messages: Seq<Seq<u8>>,
    trailers: Option<Seq<EntryView>>,
) -> Seq<u8> {
    wire(encoding, frames_bytes(body_frames(messages, trailers)))
}

/// Whether every payload of a body fits the four length bytes of a frame.
pub open spec fn body_fits(messages: Seq<Seq<u8>>, trailers: Option<Seq<EntryView>>) -> bool {
    &&& forall|i: int| 0 <= i < messages.len() ==> (#[trigger] messages[i]).len() <= u32::MAX
    &&& trailers is Some ==> block_bytes(trailers->Some_0).len() <= u32::MAX
}

/// Whether `v` is a state in which an adapter can stand between two chunks:
/// it holds less than a group of text, no text at all where the body is not
/// encoded, and no complete frame.
pub open spec fn settled(v: BodyView) -> bool {
    &&& v.text.len() < 4
    &&& (v.encoding == Encoding::Identity ==> v.text.len() == 0)
    &&& !has_frame(v.pending)
}

/// Sorting frames is indifferent to where the run is cut.
pub proof fn lemma_sort_split(seen: Option<BlockView>, f1: Seq<FrameView>, f2: Seq<FrameView>)
    ensures
        ({
            let r1 = sort_frames(seen, f1);
            let r2 = sort_frames(r1.trailers, f2);
            let r = sort_frames(seen, f1 + f2);
            &&& r1.extra ==> r.extra
            &&& !r1.extra ==> r.extra == r2.extra && r.trailers == r2.trailers
            &&& !r.extra ==> r.messages == r1.messages + r2.messages
        }),
    decreases f1.len(),
{
    if f1.len() == 0 {
        assert(f1 + f2 == f2);
        assert(Seq::<Seq<u8>>::empty() + sort_frames(seen, f2).messages == sort_frames(
            seen,
            f2,
        ).messages);
    } else if seen is Some {
    } else {
        assert((f1 + f2)[0] == f1[0]);
        assert((f1 + f2).skip(1) == f1.skip(1) + f2);
        if f1[0].is_terminal {
            lemma_sort_split(Some(parse_block(f1[0].payload)), f1.skip(1), f2);
        } else {
            lemma_sort_split(None, f1.skip(1), f2);
            let r1 = sort_frames(None, f1.skip(1));
            let r2 = sort_frames(r1.trailers, f2);
            assert(seq![f1[0].payload] + (r1.messages + r2.messages) == (seq![f1[0].payload]
                + r1.messages) + r2.messages);
        }
    }
}

/// Data frames alone sort into their payloads, and leave no trailers.
pub proof fn lemma_sort_data(messages: Seq<Seq<u8>>)
    ensures
        sort_frames(None, data_frames(messages)) == (SortView {
            messages,
            trailers: None,
            extra: false,
        }),
    decreases messages.len(),
{
    let fs = data_frames(messages);
    if messages.len() == 0 {
        assert(messages == Seq::<Seq<u8>>::empty());
    } else {
        assert(fs.skip(1) == data_frames(messages.skip(1)));
        lemma_sort_data(messages.skip(1));
        assert(seq![messages[0]] + messages.skip(1) == messages);
    }
}

/// After a chunk an adapter is settled again.
pub proof fn lemma_feed_settled(v: BodyView, chunk: Seq<u8>)
    requires
        settled(v),
    ensures
        settled(feed(v, chunk).0),
        feed(v, chunk).0.encoding == v.encoding,
        feed(v, chunk).1 is Ok ==> feed(v, chunk).0.failed is None,
{
    if v.failed is None {
        let text = v.text + chunk;
        lemma_leftover_short(text);
        lemma_tail_has_no_frame(v.pending + unwrapped(v.encoding, text));
    }
}

/// A chunk without bytes changes nothing.
pub proof fn lemma_feed_nothing(v: BodyView)
    requires
        settled(v),
        v.failed is None,
    ensures
        feed(v, Seq::<u8>::empty()) == (v, Ok::<Seq<Seq<u8>>, ClientError>(Seq::empty())),
{
    let nothing = Seq::<u8>::empty();
    let text = v.text + nothing;
    assert(text == v.text);
    let bytes = unwrapped(v.encoding, text);
    assert(bytes == nothing);
    assert(v.pending + bytes == v.pending);
    assert(frames_of(v.pending) == Seq::<FrameView>::empty());
    assert(feed(v, nothing).0 == v);
}

/// Taking in `a + b` at once comes to the same as taking in `a` and then
/// `b`, unless an error ends the body: an error on the way is an error of
/// the whole.
pub proof fn lemma_feed_split(v: BodyView, a: Seq<u8>, b: Seq<u8>)
    requires
        settled(v),
        v.failed is None,
    ensures
        ({
            let (v1, r1) = feed(v, a);
            let (v2, r2) = feed(v1, b);
            let (w, r) = feed(v, a + b);
            &&& r1 is Err ==> r is Err
            &&& r1 is Ok ==> (r is Ok <==> r2 is Ok)
            &&& r is Ok ==> w == v2 && r->Ok_0 == r1->Ok_0 + r2->Ok_0
        }),
{
    let enc = v.encoding;
    let text_a = v.text + a;
    let whole = v.text + (a + b);
    assert(whole == text_a + b);
    lemma_groups_split(text_a, b);
    lemma_leftover_short(text_a);
    if text_ok(enc, text_a) {
        let bytes_a = unwrapped(enc, text_a);
        let data_a = v.pending + bytes_a;
        let s1 = sort_frames(v.trailers, frames_of(data_a));
        let text_b = text_left(enc, text_a) + b;
        if enc == Encoding::Identity {
            assert(text_a == a);
            assert(whole == a + b);
            assert(text_b == b);
        }
        if text_ok(enc, whole) {
            let bytes_b = unwrapped(enc, text_b);
            assert(unwrapped(enc, whole) == bytes_a + bytes_b);
            let data = v.pending + unwrapped(enc, whole);
            assert(data == data_a + bytes_b);
            lemma_frames_split(data_a, bytes_b);
            lemma_sort_split(v.trailers, frames_of(data_a), frames_of(tail_of(data_a) + bytes_b));
            assert(text_left(enc, whole) == text_left(enc, text_b));
        }
    }
}

/// Where the whole stream runs into no error while it is taken in, every
/// way of cutting it into chunks ends as the whole does.
pub proof fn lemma_run_whole(v: BodyView, chunks: Seq<Seq<u8>>)
    requires
        settled(v),
        v.failed is None,
        feed(v, concat(chunks)).1 is Ok,
    ensures
        run(v, chunks) == run(v, seq![concat(chunks)]),
    decreases chunks.len(),
{
    let whole = concat(chunks);
    let (w, r) = feed(v, whole);
    assert(seq![whole][0] == whole);
    assert(seq![whole].skip(1) == Seq::<Seq<u8>>::empty());
    assert(run(w, Seq::<Seq<u8>>::empty()) == match finished(w) {
        Ok(trailers) => Ok::<Drained, ClientError>(
            Drained { messages: Seq::empty(), trailers },
        ),
        Err(e) => Err(e),
    });
    if chunks.len() == 0 {
        lemma_feed_nothing(v);
        assert(Seq::<Seq<u8>>::empty() + Seq::<Seq<u8>>::empty() == Seq::<Seq<u8>>::empty());
    } else {
        let c = chunks[0];
        let rest = chunks.skip(1);
        let tail = concat(rest);
        lemma_feed_split(v, c, tail);
        lemma_feed_settled(v, c);
        let (v1, r1) = feed(v, c);
        let (v2, r2) = feed(v1, tail);
        lemma_run_whole(v1, rest);
        assert(seq![tail][0] == tail);
        assert(seq![tail].skip(1) == Seq::<Seq<u8>>::empty());
        assert(run(v2, Seq::<Seq<u8>>::empty()) == run(w, Seq::<Seq<u8>>::empty()));
        let m1 = r1->Ok_0;
        let m2 = r2->Ok_0;
        assert(r->Ok_0 == m1 + m2);
        match finished(w) {
            Ok(trailers) => {
                assert(run(v1, seq![tail]) == Ok::<Drained, ClientError>(
                    Drained { messages: m2 + Seq::<Seq<u8>>::empty(), trailers },
                ));
                assert(m1 + (m2 + Seq::<Seq<u8>>::empty()) == (m1 + m2) + Seq::<Seq<u8>>::empty());
            },
            Err(e) => {},
        }
    }
}

/// Where the whole stream runs into an error while it is taken in, every
/// way of cutting it into chunks ends in an error too.
pub proof fn lemma_run_fails(v: BodyView, chunks: Seq<Seq<u8>>)
    requires
        settled(v),
        v.failed is None,
        feed(v, concat(chunks)).1 is Err,
    ensures
        run(v, chunks) is Err,
    decreases chunks.len(),
{
    if chunks.len() == 0 {
        lemma_feed_nothing(v);
    } else {
        let c = chunks[0];
        let rest = chunks.skip(1);
        lemma_feed_split(v, c, concat(rest));
        lemma_feed_settled(v, c);
        if feed(v, c).1 is Ok {
            lemma_run_fails(feed(v, c).0, rest);
        }
    }
}

/// Chunk boundaries do not matter. A stream that decodes when it is taken
/// in at once gives the same messages and the same trailers however it is
/// cut into chunks, one byte per chunk included; a stream that does not
/// decode fails however it is cut; and where no chunk of the whole runs
/// into an error, the very same error comes at the end of the stream.
pub proof fn lemma_chunking_is_invisible(encoding: Encoding, chunks: Seq<Seq<u8>>)
    ensures
        decode_stream(encoding, concat(chunks)) is Ok ==> run(start(encoding), chunks)
            == decode_stream(encoding, concat(chunks)),
        decode_stream(encoding, concat(chunks)) is Err ==> run(start(encoding), chunks) is Err,
        feed(start(encoding), concat(chunks)).1 is Ok ==> run(start(encoding), chunks)
            == decode_stream(encoding, concat(chunks)),
{
    let v = start(encoding);
    let whole = concat(chunks);
    assert(seq![whole][0] == whole);
    if feed(v, whole).1 is Ok {
        lemma_run_whole(v, chunks);
    } else {
        lemma_run_fails(v, chunks);
    }
}

/// What a stream comes to when nothing goes wrong while it is taken in:
/// the messages of its complete frames, and whatever the end of the stream
/// makes of the state it leaves.
pub proof fn lemma_decode_stream(encoding: Encoding, stream: Seq<u8>)
    requires
        feed(start(encoding), stream).1 is Ok,
    ensures
        decode_stream(encoding, stream) == match finished(feed(start(encoding), stream).0) {
            Ok(trailers) => Ok::<Drained, ClientError>(
                Drained { messages: feed(start(encoding), stream).1->Ok_0, trailers },
            ),
            Err(e) => Err(e),
        },
{
    let (w, r) = feed(start(encoding), stream);
    assert(seq![stream][0] == stream);
    assert(seq![stream].skip(1) == Seq::<Seq<u8>>::empty());
    assert(r->Ok_0 + Seq::<Seq<u8>>::empty() == r->Ok_0);
    assert(run(w, Seq::<Seq<u8>>::empty()) == match finished(w) {
        Ok(trailers) => Ok::<Drained, ClientError>(
            Drained { messages: Seq::empty(), trailers },
        ),
        Err(e) => Err(e),
    });
}

/// Taking in the wire form of `data` from the start: the text is read in
/// full and the frames of `data` are sorted.
pub proof fn lemma_feed_wire(encoding: Encoding, data: Seq<u8>)
    ensures
        ({
            let sorted = sort_frames(None, frames_of(data));
            let (w, r) = feed(start(encoding), wire(encoding, data));
            &&& sorted.extra ==> r == Err::<Seq<Seq<u8>>, ClientError>(ClientError::FrameDecode)
            &&& !sorted.extra ==> r == Ok::<Seq<Seq<u8>>, ClientError>(sorted.messages) && w == (
            BodyView {
                encoding,
                text: Seq::empty(),
                pending: tail_of(data),
                trailers: sorted.trailers,
                failed: None,
            })
        }),
{
    let text = Seq::<u8>::empty() + wire(encoding, data);
    assert(text == wire(encoding, data));
    lemma_text_round_trip(data);
    assert(unwrapped(encoding, text) == data);
    assert(Seq::<u8>::empty() + data == data);
}

/// Round trip: a body written from messages and clean, non-empty trailers
/// decodes to exactly these messages and these trailers, in either encoding.
pub proof fn lemma_body_round_trip(
    encoding: Encoding,
    messages: Seq<Seq<u8>>,
    trailers: Seq<EntryView>,
)
    requires
        body_fits(messages, Some(trailers)),
        trailers.len() > 0,
        forall|i: int| 0 <= i < trailers.len() ==> entry_clean(#[trigger] trailers[i]),
    ensures
        decode_stream(encoding, body_bytes(encoding, messages, Some(trailers))) == Ok::<
            Drained,
            ClientError,
        >(Drained { messages, trailers }),
{
    let block = block_bytes(trailers);
    let last = FrameView { is_terminal: true, payload: block };
    let fs = body_frames(messages, Some(trailers));
    let data = frames_bytes(fs);
    assert(fs == data_frames(messages) + seq![last]);
    assert forall|i: int| 0 <= i < fs.len() implies (#[trigger] fs[i]).payload.len()
        <= u32::MAX by {
        if i < messages.len() {
            assert(fs[i].payload == messages[i]);
        }
    }
    lemma_frames_round_trip(fs);
    lemma_sort_data(messages);
    lemma_sort_split(None, data_frames(messages), seq![last]);
    lemma_block_round_trip(trailers);
    assert(seq![last].skip(1) == Seq::<FrameView>::empty());
    assert(sort_frames(None, seq![last]) == sort_frames(
        Some(parse_block(block)),
        Seq::<FrameView>::empty(),
    ));
    assert(messages + Seq::<Seq<u8>>::empty() == messages);
    lemma_feed_wire(encoding, data);
    lemma_decode_stream(encoding, wire(encoding, data));
}

/// No terminal frame, no silent success: a body of data frames alone,
/// however it is cut into chunks, ends with the error that the trailers are
/// missing.
pub proof fn lemma_no_terminal_frame(
    encoding: Encoding,
    messages: Seq<Seq<u8>>,
    chunks: Seq<Seq<u8>>,
)
    requires
        body_fits(messages, None),
        concat(chunks) == body_bytes(encoding, messages, None),
    ensures
        run(start(encoding), chunks) == Err::<Drained, ClientError>(ClientError::MissingTrailers),
{
    let fs = data_frames(messages);
    let data = frames_bytes(fs);
    assert forall|i: int| 0 <= i < fs.len() implies (#[trigger] fs[i]).payload.len()
        <= u32::MAX by {
        assert(fs[i].payload == messages[i]);
    }
    lemma_frames_round_trip(fs);
    lemma_sort_data(messages);
    lemma_feed_wire(encoding, data);
    lemma_decode_stream(encoding, wire(encoding, data));
    lemma_chunking_is_invisible(encoding, chunks);
}

/// A stream that ends in the middle of a frame is incomplete, not broken:
/// where its complete frames are in order, it ends with the error that the
/// stream stopped short, however it is cut into chunks.
pub proof fn lemma_truncated_frame(encoding: Encoding, data: Seq<u8>, chunks: Seq<Seq<u8>>)
    requires
        tail_of(data).len() > 0,
        !sort_frames(None, frames_of(data)).extra,
        concat(chunks) == wire(encoding, data),
    ensures
        run(start(encoding), chunks) == Err::<Drained, ClientError>(ClientError::UnexpectedEof),
{
    lemma_feed_wire(encoding, data);
    lemma_decode_stream(encoding, wire(encoding, data));
    lemma_chunking_is_invisible(encoding, chunks);
}

/// A base64 body whose length is no multiple of four fails at the end of the
/// stream and not before: where its whole groups are valid and their frames
/// in order, no chunk is refused, and the end of the stream brings the
/// encoding error, however the text is cut into chunks.
pub proof fn lemma_text_cut_short(text: Seq<u8>, chunks: Seq<Seq<u8>>)
    requires
        text.len() % 4 != 0,
        groups_ok(text),
        !sort_frames(None, frames_of(groups_bytes(text))).extra,
        concat(chunks) == text,
    ensures
        feed(start(Encoding::Base64), text).1 is Ok,
        finished(feed(start(Encoding::Base64), text).0) == Err::<Seq<EntryView>, ClientError>(
            ClientError::Encoding,
        ),
        run(start(Encoding::Base64), chunks) == Err::<Drained, ClientError>(ClientError::Encoding),
{
    assert(Seq::<u8>::empty() + text == text);
    assert(Seq::<u8>::empty() + groups_bytes(text) == groups_bytes(text));
    lemma_leftover_short(text);
    lemma_decode_stream(Encoding::Base64, text);
    lemma_chunking_is_invisible(Encoding::Base64, chunks);
}

/// Two ways of cutting one stream into chunks agree: where one of them
/// gives messages and trailers, the other gives the same.
pub proof fn lemma_partitions_agree(
    encoding: Encoding,
    first: Seq<Seq<u8>>,
    second: Seq<Seq<u8>>,
)
    requires
        concat(first) == concat(second),
        run(start(encoding), first) is Ok,
    ensures
        run(start(encoding), second) == run(start(encoding), first),
{
    lemma_chunking_is_invisible(encoding, first);
    lemma_chunking_is_invisible(encoding, second);
}

/// The adapter for one response body.
pub struct BodyAdapter {
    encoding: Encoding,
    text: Base64Decoder,
    frames: DecodeState,
    trailers: Option<TrailerParse>,
    failed: Option<ClientError>,
}

impl View for BodyAdapter {
    type V = BodyView;

    closed spec fn view(&self) -> BodyView {
        if self.failed is Some {
            ended(self.encoding, self.failed->Some_0)
        } else {
            BodyView {
                encoding: self.encoding,
                text: match self.encoding {
                    Encoding::Identity => Seq::empty(),
                    Encoding::Base64 => self.text.pending(),
                },
                pending: self.frames.pending(),
                trailers: match self.trailers {
                    Some(parse) => Some(parse.outcome()),
                    None => None,
                },
                failed: None,
            }
        }
    }
}

impl BodyAdapter {
    /// An adapter for a body in the given encoding, before its first chunk.
    pub fn new(encoding: Encoding) -> (adapter: Self)
        ensures
            adapter@ == start(encoding),
    {
        BodyAdapter {
            encoding,
            text: Base64Decoder::new(),
            frames: DecodeState::new(),
            trailers: None,
            failed: None,
        }
    }

    /// The encoding of the body.
    pub fn encoding(&self) -> (encoding: Encoding)
        ensures
            encoding == self@.encoding,
    {
        self.encoding
    }

    /// Takes in the next chunk of the body. Returns the messages that the
    /// chunk completes, in wire order; the terminal frame is kept back as
    /// trailers and never given out as a message. An invalid base64 group
    /// or a frame behind the terminal frame ends the body with an error:
    /// the chunk that holds it gives out no message, and every later call
    /// returns that error again.
    pub fn push_chunk(&mut self, chunk: &[u8]) -> (out: Result<Vec<Vec<u8>>, ClientError>)
        ensures
            final(self)@ == feed(old(self)@, chunk@).0,
            match out {
                Ok(messages) => feed(old(self)@, chunk@).1 == Ok::<Seq<Seq<u8>>, ClientError>(
                    byte_views(messages@),
                ),
                Err(e) => feed(old(self)@, chunk@).1 == Err::<Seq<Seq<u8>>, ClientError>(e),
            },
    {
        if let Some(e) = self.failed {
            return Err(e);
        }
        let ghost before = self@;
        let ghost text = before.text + chunk@;
        let bytes: Vec<u8> = match self.encoding {
            Encoding::Identity => {
                assert(text == chunk@);
                slice_to_vec(chunk)
            },
            Encoding::Base64 => match self.text.push(chunk) {
                Ok(bytes) => bytes,
                Err(e) => {
                    self.failed = Some(e);
                    return Err(e);
                },
            },
        };
        let ghost data = before.pending + bytes@;
        let (frames, _) = self.frames.decode_step(bytes.as_slice());
        let ghost fs = frame_views(frames@);
        let mut messages: Vec<Vec<u8>> = Vec::new();
        let mut i: usize = 0;
        assert(fs.skip(0) == fs);
        assert(byte_views(messages@) == Seq::<Seq<u8>>::empty());
        assert(Seq::<Seq<u8>>::empty() + sort_frames(before.trailers, fs).messages == sort_frames(
            before.trailers,
            fs,
        ).messages);
        while i < frames.len()
            invariant
                i <= frames.len(),
                fs == frame_views(frames@),
                before == old(self)@,
                before.failed is None,
                text == before.text + chunk@,
                text_ok(before.encoding, text),
                data == before.pending + unwrapped(before.encoding, text),
                fs == frames_of(data),
                self.failed is None,
                self.encoding == before.encoding,
                self@.text == text_left(before.encoding, text),
                self@.pending == tail_of(data),
                sort_frames(before.trailers, fs).extra == sort_frames(
                    self@.trailers,
                    fs.skip(i as int),
                ).extra,
                sort_frames(before.trailers, fs).trailers == sort_frames(
                    self@.trailers,
                    fs.skip(i as int),
                ).trailers,
                !sort_frames(before.trailers, fs).extra ==> sort_frames(before.trailers, fs).messages
                    == byte_views(messages@) + sort_frames(
                    self@.trailers,
                    fs.skip(i as int),
                ).messages,
            decreases frames.len() - i,
        {
            let ghost rest = fs.skip(i as int);
            let ghost seen = self@.trailers;
            assert(rest[0] == frames@[i as int]@);
            assert(rest.skip(1) == fs.skip(i + 1));
            if self.trailers.is_some() {
                assert(sort_frames(seen, rest).extra);
                self.failed = Some(ClientError::FrameDecode);
                return Err(ClientError::FrameDecode);
            }
            let frame: &Frame = &frames[i];
            if frame.is_terminal {
                self.trailers = Some(try_parse(frame.payload.as_slice()));
            } else {
                let ghost r = sort_frames(None, rest.skip(1));
                let ghost sofar = byte_views(messages@);
                messages.push(slice_to_vec(frame.payload.as_slice()));
                assert(byte_views(messages@) == sofar.push(frame.payload@));
                assert(sofar + (seq![frame.payload@] + r.messages) == sofar.push(frame.payload@)
                    + r.messages);
            }
            i = i + 1;
        }
        assert(fs.skip(frames.len() as int) == Seq::<FrameView>::empty());
        assert(byte_views(messages@) + Seq::<Seq<u8>>::empty() == byte_views(messages@));
        Ok(messages)
    }

    /// Ends the stream. Returns the trailers, or the reason why the body has
    /// none: an error that ended it before, a base64 group or a frame cut
    /// short, no terminal frame at all, or a terminal frame whose block is
    /// incomplete or malformed.
    pub fn finish(self) -> (out: Result<Metadata, ClientError>)
        ensures
            match out {
                Ok(trailers) => finished(self@) == Ok::<Seq<EntryView>, ClientError>(trailers@),
                Err(e) => finished(self@) == Err::<Seq<EntryView>, ClientError>(e),
            },
    {
        if let Some(e) = self.failed {
            return Err(e);
        }
        if let Encoding::Base64 = self.encoding {
            if let Err(e) = self.text.finish() {
                return Err(e);
            }
        }
        if self.frames.is_mid_frame() {
            return Err(ClientError::UnexpectedEof);
        }
        match self.trailers {
            None => Err(ClientError::MissingTrailers),
            Some(TrailerParse::Incomplete) => Err(ClientError::HttpIncompleteParseError),
            Some(TrailerParse::Malformed { .. }) => Err(ClientError::HttpParseError),
            Some(TrailerParse::Parsed(trailers, _)) => Ok(trailers),
        }
    }
}

/// The pairs of the trailers handed to [`encode_body`], if there are any.
pub open spec fn trailers_view(trailers: Option<&Metadata>) -> Option<Seq<EntryView>> {
    match trailers {
        Some(metadata) => Some(metadata@),
        None => None,
    }
}

/// Writes a body: one data frame for each message, then the terminal frame
/// with the trailers where there are some, and the text encoding around it
/// all. A payload too long for the four length bytes of a frame is refused.
pub fn encode_body(encoding: Encoding, messages: &Vec<Vec<u8>>, trailers: Option<&Metadata>) -> (out:
    Result<Vec<u8>, ClientError>)
    ensures
        match out {
            Ok(body) => body_fits(byte_views(messages@), trailers_view(trailers)) && body@
                == body_bytes(encoding, byte_views(messages@), trailers_view(trailers)),
            Err(e) => e == ClientError::TryFromIntError && !body_fits(
                byte_views(messages@),
                trailers_view(trailers),
            ),
        },
{
    let ghost msgs = byte_views(messages@);
    let ghost fs = data_frames(msgs);
    let mut data: Vec<u8> = Vec::new();
    let mut i: usize = 0;
    assert(fs.take(0) == Seq::<FrameView>::empty());
    while i < messages.len()
        invariant
            i <= messages.len(),
            msgs == byte_views(messages@),
            fs == data_frames(msgs),
            data@ == frames_bytes(fs.take(i as int)),
            forall|j: int| 0 <= j < i ==> (#[trigger] msgs[j]).len() <= u32::MAX,
        decreases messages.len() - i,
    {
        let message: &Vec<u8> = &messages[i];
        assert(message@ == msgs[i as int]);
        if message.len() > u32::MAX as usize {
            return Err(ClientError::TryFromIntError);
        }
        let framed: Vec<u8> = frame_encode(message.as_slice(), false);
        append_bytes(&mut data, framed.as_slice());
        proof {
            lemma_frames_bytes_push(fs.take(i as int), fs[i as int]);
            assert(fs.take(i + 1) == fs.take(i as int).push(fs[i as int]));
        }
        i = i + 1;
    }
    assert(fs.take(messages.len() as int) == fs);
    if let Some(metadata) = trailers {
        let block: Vec<u8> = metadata.encode();
        if block.len() > u32::MAX as usize {
            return Err(ClientError::TryFromIntError);
        }
        let framed: Vec<u8> = frame_encode(block.as_slice(), true);
        append_bytes(&mut data, framed.as_slice());
        proof {
            lemma_frames_bytes_push(fs, FrameView { is_terminal: true, payload: block@ });
        }
    }
    match encoding {
        Encoding::Identity => Ok(data),
        Encoding::Base64 => Ok(base64_encode(data.as_slice())),
    }
}

/// Reads a whole body at once: its messages in order, and its trailers.
pub fn decode_body(encoding: Encoding, stream: &[u8]) -> (out: Result<
    (Vec<Vec<u8>>, Metadata),
    ClientError,
>)
    ensures
        match out {
            Ok((messages, trailers)) => decode_stream(encoding, stream@) == Ok::<
                Drained,
                ClientError,
            >(Drained { messages: byte_views(messages@), trailers: trailers@ }),
            Err(e) => decode_stream(encoding, stream@) == Err::<Drained, ClientError>(e),
        },
{
    let mut adapter = BodyAdapter::new(encoding);
    proof {
        assert(seq![stream@][0] == stream@);
        if feed(start(encoding), stream@).1 is Ok {
            lemma_decode_stream(encoding, stream@);
        }
    }
    let messages: Vec<Vec<u8>> = match adapter.push_chunk(stream) {
        Ok(messages) => messages,
        Err(e) => { return Err(e); },
    };
    match adapter.finish() {
        Ok(trailers) => Ok((messages, trailers)),
        Err(e) => Err(e),
    }
}

/// Reads a body from the chunks it arrived in: its messages in order, and
/// its trailers.
pub fn decode_chunks(encoding: Encoding, chunks: &Vec<Vec<u8>>) -> (out: Result<
    (Vec<Vec<u8>>, Metadata),
    ClientError,
>)
    ensures
        match out {
            Ok((messages, trailers)) => run(start(encoding), byte_views(chunks@)) == Ok::<
                Drained,
                ClientError,
            >(Drained { messages: byte_views(messages@), trailers: trailers@ }),
            Err(e) => run(start(encoding), byte_views(chunks@)) == Err::<Drained, ClientError>(e),
        },
{
    let ghost all = byte_views(chunks@);
    let mut adapter = BodyAdapter::new(encoding);
    let mut messages: Vec<Vec<u8>> = Vec::new();
    let mut i: usize = 0;
    assert(all.skip(0) == all);
    assert(byte_views(messages@) == Seq::<Seq<u8>>::empty());
    while i < chunks.len()
        invariant
            i <= chunks.len(),
            all == byte_views(chunks@),
            run(start(encoding), all) == behind_messages(
                byte_views(messages@),
                run(adapter@, all.skip(i as int)),
            ),
        decreases chunks.len() - i,
    {
        let ghost rest = all.skip(i as int);
        let ghost sofar = byte_views(messages@);
        let ghost before = adapter@;
        assert(rest[0] == chunks@[i as int]@);
        assert(rest.skip(1) == all.skip(i + 1));
        match adapter.push_chunk(chunks[i].as_slice()) {
            Ok(mut more) => {
                let ghost added = byte_views(more@);
                messages.append(&mut more);
                proof {
                    assert(byte_views(messages@) == sofar + added);
                    match run(adapter@, rest.skip(1)) {
                        Ok(d) => {
                            assert(sofar + (added + d.messages) == (sofar + added) + d.messages);
                        },
                        Err(_) => {},
                    }
                }
            },
            Err(e) => {
                return Err(e);
            },
        }
        i = i + 1;
    }
    assert(all.skip(chunks.len() as int) == Seq::<Seq<u8>>::empty());
    assert(byte_views(messages@) + Seq::<Seq<u8>>::empty() == byte_views(messages@));
    match adapter.finish() {
        Ok(trailers) => Ok((messages, trailers)),
        Err(e) => Err(e),
    }
}

} // verus!
