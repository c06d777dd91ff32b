//! Frame handling: iterate the records of a buffer, partitioning them into
//! decoded and rejected ones, and re-encode the compliant records.

use vstd::prelude::*;
use vstd::string::StringExecFns;
use crate::codec::{dec_message, enc_message, tenc_fields, Codec, CodecError, DMsgRes, EMsgRes, ErrKind};
use crate::value::{ValModel, ValueMap};
use crate::walk::MAX_DEPTH;

verus! {

/// A record that decoded and validated.
#[derive(Debug)]
pub struct DecodedMessage {
    pub name: String,
    pub values: ValueMap,
    pub byte_range: (usize, usize),
}

/// A record that was rejected: its byte range and the decoder's reason.
#[derive(Debug)]
pub struct RemovedMessage {
    pub name: String,
    pub byte_range: (usize, usize),
    pub reason: String,
}

/// Result of decoding a frame: accepted records and rejected ones.
#[derive(Debug)]
pub struct FrameDecodeResult {
    pub messages: Vec<DecodedMessage>,
    pub removed: Vec<RemovedMessage>,
}

/// One frame-iteration step outcome in the model: the record's byte range
/// and either its value map or a rejection mark.
pub ghost enum RecModel {
    Good { start: int, end: int, out: Seq<(Seq<char>, ValModel)> },
    Bad { start: int, end: int },
}

/// The records a frame iteration yields from `offset` on: each step decodes
/// one record of the named message, advances by its reported extent, and
/// stops when no progress is possible. Extents never outrun the buffer, so
/// ranges are capped at its end.
pub open spec fn frame_steps(
    p: crate::ast::Protocol,
    big: bool,
    body: Seq<u8>,
    offset: nat,
    base: nat,
    name: Seq<char>,
) -> Seq<RecModel>
    decreases body.len() - offset,
{
    if offset >= body.len() {
        Seq::empty()
    } else {
        match dec_message(p, big, body.skip(offset as int), name, MAX_DEPTH as nat) {
            DMsgRes::Done { consumed, out } => {
                if consumed == 0 {
                    Seq::empty()
                } else {
                    let capped: nat = if offset + consumed >= body.len() {
                        (body.len() - offset) as nat
                    } else {
                        consumed
                    };
                    let rec = RecModel::Good {
                        start: (base + offset) as int,
                        end: (base + offset + capped) as int,
                        out,
                    };
                    if offset + consumed >= body.len() {
                        seq![rec]
                    } else {
                        seq![rec] + frame_steps(p, big, body, offset + consumed, base, name)
                    }
                }
            },
            DMsgRes::Fail { consumed, kind: _ } => {
                if consumed == 0 {
                    Seq::empty()
                } else {
                    let capped: nat = if offset + consumed >= body.len() {
                        (body.len() - offset) as nat
                    } else {
                        consumed
                    };
                    let rec = RecModel::Bad {
                        start: (base + offset) as int,
                        end: (base + offset + capped) as int,
                    };
                    if offset + consumed >= body.len() {
                        seq![rec]
                    } else {
                        seq![rec] + frame_steps(p, big, body, offset + consumed, base, name)
                    }
                }
            },
        }
    }
}

/// The accepted records of a step sequence, in order.
pub open spec fn goods(steps: Seq<RecModel>) -> Seq<RecModel>
    decreases steps.len(),
{
    if steps.len() == 0 {
        Seq::empty()
    } else {
        let rest = goods(steps.drop_first());
        if steps.first() is Good {
            seq![steps.first()] + rest
        } else {
            rest
        }
    }
}

/// The rejected records of a step sequence, in order.
pub open spec fn bads(steps: Seq<RecModel>) -> Seq<RecModel>
    decreases steps.len(),
{
    if steps.len() == 0 {
        Seq::empty()
    } else {
        let rest = bads(steps.drop_first());
        if steps.first() is Bad {
            seq![steps.first()] + rest
        } else {
            rest
        }
    }
}

/// The model of a decoded record.
pub open spec fn good_model(d: DecodedMessage) -> RecModel {
    RecModel::Good { start: d.byte_range.0 as int, end: d.byte_range.1 as int, out: d.values@ }
}

/// The model of a rejected record.
pub open spec fn bad_model(d: RemovedMessage) -> RecModel {
    RecModel::Bad { start: d.byte_range.0 as int, end: d.byte_range.1 as int }
}

/// The decoded records as models, in order.
pub open spec fn good_models(msgs: Seq<DecodedMessage>) -> Seq<RecModel> {
    Seq::new(msgs.len(), |i: int| good_model(msgs[i]))
}

/// The rejected records as models, in order.
pub open spec fn bad_models(rem: Seq<RemovedMessage>) -> Seq<RecModel> {
    Seq::new(rem.len(), |i: int| bad_model(rem[i]))
}

proof fn lemma_goods_cons(r: RecModel, rest: Seq<RecModel>)
    ensures
        goods(seq![r] + rest) == (if r is Good {
            seq![r] + goods(rest)
        } else {
            goods(rest)
        }),
        bads(seq![r] + rest) == (if r is Bad {
            seq![r] + bads(rest)
        } else {
            bads(rest)
        }),
{
    assert((seq![r] + rest).first() == r);
    assert((seq![r] + rest).drop_first() =~= rest);
    assert((seq![r] + rest).len() == 1 + rest.len());
}

/// Decodes a binary frame: skips the transport prefix when one is given,
/// then iterates records of the named message, converting a record-level
/// error into a rejected entry and continuing past its reported extent.
/// The decoded and rejected lists are exactly the accepted and rejected
/// projections of the frame iteration, in order.
pub fn decode_frame(
    codec: &Codec,
    message_name: &str,
    bytes: &[u8],
    transport_len: Option<usize>,
) -> (r: Result<FrameDecodeResult, CodecError>)
    ensures
        ({
            let base: int = match transport_len {
                Some(n) => n as int,
                None => 0,
            };
            match r {
                Ok(res) => {
                    &&& base <= bytes@.len()
                    &&& ({
                        let steps = frame_steps(
                            codec.resolved.protocol,
                            codec.endianness is Big,
                            bytes@.skip(base),
                            0,
                            base as nat,
                            message_name@,
                        );
                        &&& good_models(res.messages@) == goods(steps)
                        &&& bad_models(res.removed@) == bads(steps)
                        &&& forall|i: int|
                            0 <= i < res.messages@.len() ==> (#[trigger] res.messages@[i]).name@
                                == message_name@
                        &&& forall|i: int|
                            0 <= i < res.removed@.len() ==> (#[trigger] res.removed@[i]).name@
                                == message_name@
                    })
                },
                Err(e) => base > bytes@.len() && e@ == ErrKind::Validation,
            }
        }),
{
    let base: usize = match transport_len {
        Some(n) => n,
        None => 0,
    };
    if base > bytes.len() {
        return Err(
            CodecError::Validation(String::from_str("Frame shorter than transport header")),
        );
    }
    let body = slice_tail(bytes, base);
    let ghost p = codec.resolved.protocol;
    let ghost big = codec.endianness is Big;
    let ghost steps = frame_steps(p, big, body@, 0, base as nat, message_name@);
    let mut messages: Vec<DecodedMessage> = Vec::new();
    let mut removed: Vec<RemovedMessage> = Vec::new();
    let n = body.len();
    let mut offset: usize = 0;
    let mut finished = false;
    proof {
        assert(good_models(messages@) + goods(steps) =~= goods(steps));
        assert(bad_models(removed@) + bads(steps) =~= bads(steps));
    }
    while !finished && offset < n
        invariant
            n == body@.len(),
            offset <= n,
            base + n <= bytes@.len() + base,
            bytes@.len() <= usize::MAX,
            base + n <= usize::MAX,
            p == codec.resolved.protocol,
            big == (codec.endianness is Big),
            steps == frame_steps(p, big, body@, 0, base as nat, message_name@),
            goods(steps) == good_models(messages@) + goods(
                if finished {
                    Seq::<RecModel>::empty()
                } else {
                    frame_steps(p, big, body@, offset as nat, base as nat, message_name@)
                },
            ),
            bads(steps) == bad_models(removed@) + bads(
                if finished {
                    Seq::<RecModel>::empty()
                } else {
                    frame_steps(p, big, body@, offset as nat, base as nat, message_name@)
                },
            ),
            forall|i: int|
                0 <= i < messages@.len() ==> (#[trigger] messages@[i]).name@ == message_name@,
            forall|i: int|
                0 <= i < removed@.len() ==> (#[trigger] removed@[i]).name@ == message_name@,
        decreases n - offset + (if finished { 0int } else { 1int }),
    {
        let rest = slice_tail(body, offset);
        proof {
            assert(rest@ =~= body@.skip(offset as int));
        }
        let (consumed, result) = codec.decode_message_with_extent(message_name, rest);
        let ghost cur = frame_steps(p, big, body@, offset as nat, base as nat, message_name@);
        if consumed == 0 {
            proof {
                assert(goods(cur) =~= Seq::<RecModel>::empty());
                assert(bads(cur) =~= Seq::<RecModel>::empty());
                assert(good_models(messages@) + goods(cur) =~= good_models(messages@)
                    + goods(Seq::<RecModel>::empty()));
                assert(bad_models(removed@) + bads(cur) =~= bad_models(removed@) + bads(
                    Seq::<RecModel>::empty(),
                ));
            }
            finished = true;
        } else {
            let capped = consumed_cap(consumed, n - offset);
            let start_abs = base + offset;
            let end_abs = base + offset + capped;
            let ghost rec = match result {
                Ok(ref values) => RecModel::Good {
                    start: start_abs as int,
                    end: end_abs as int,
                    out: values@,
                },
                Err(_) => RecModel::Bad { start: start_abs as int, end: end_abs as int },
            };
            let ghost next = if offset + consumed >= n {
                Seq::<RecModel>::empty()
            } else {
                frame_steps(p, big, body@, (offset + consumed) as nat, base as nat, message_name@)
            };
            proof {
                if offset + consumed >= n {
                    assert(cur =~= seq![rec] + next);
                } else {
                    assert(cur == seq![rec] + next);
                }
                lemma_goods_cons(rec, next);
            }
            match result {
                Ok(values) => {
                    let d = DecodedMessage {
                        name: crate::walk::clone_str_ref(message_name),
                        values,
                        byte_range: (start_abs, end_abs),
                    };
                    proof {
                        assert(good_model(d) == rec);
                        assert(good_models(messages@.push(d)) =~= good_models(messages@)
                            + seq![rec]);
                        assert((good_models(messages@) + seq![rec]) + goods(next) =~= good_models(
                            messages@,
                        ) + (seq![rec] + goods(next)));
                        assert(bad_models(removed@) + bads(cur) =~= bad_models(removed@) + bads(
                            next,
                        ));
                    }
                    messages.push(d);
                },
                Err(e) => {
                    let d = RemovedMessage {
                        name: crate::walk::clone_str_ref(message_name),
                        byte_range: (start_abs, end_abs),
                        reason: e.describe(),
                    };
                    proof {
                        assert(bad_model(d) == rec);
                        assert(bad_models(removed@.push(d)) =~= bad_models(removed@) + seq![rec]);
                        assert((bad_models(removed@) + seq![rec]) + bads(next) =~= bad_models(
                            removed@,
                        ) + (seq![rec] + bads(next)));
                        assert(good_models(messages@) + goods(cur) =~= good_models(messages@)
                            + goods(next));
                    }
                    removed.push(d);
                },
            }
            if consumed >= n - offset {
                finished = true;
                offset = n;
            } else {
                offset = offset + consumed;
            }
        }
    }
    proof {
        if !finished {
            assert(frame_steps(p, big, body@, offset as nat, base as nat, message_name@)
                =~= Seq::<RecModel>::empty());
            assert(goods(Seq::<RecModel>::empty()) =~= Seq::<RecModel>::empty());
        }
        assert(good_models(messages@) + goods(Seq::<RecModel>::empty()) =~= good_models(
            messages@,
        ));
        assert(bad_models(removed@) + bads(Seq::<RecModel>::empty()) =~= bad_models(removed@));
    }
    Ok(FrameDecodeResult { messages, removed })
}

/// The consumed count, capped to the remaining buffer for range bookkeeping.
fn consumed_cap(consumed: usize, rem: usize) -> (r: usize)
    ensures
        r == (if consumed > rem {
            rem as int
        } else {
            consumed as int
        }),
{
    if consumed > rem {
        rem
    } else {
        consumed
    }
}

/// The tail of a slice from `pos` on.
fn slice_tail(data: &[u8], pos: usize) -> (r: &[u8])
    requires
        pos <= data@.len(),
    ensures
        r@ == data@.skip(pos as int),
{
    let r = &data[pos..data.len()];
    proof {
        assert(r@ =~= data@.skip(pos as int));
    }
    r
}

/// The concatenated encodings of the accepted records, or the first
/// encoding failure.
pub open spec fn enc_records(
    p: crate::ast::Protocol,
    big: bool,
    name: Seq<char>,
    msgs: Seq<DecodedMessage>,
    i: nat,
) -> EMsgRes
    decreases msgs.len() - i,
{
    if i >= msgs.len() {
        EMsgRes::Done(Seq::empty())
    } else {
        match enc_message(p, big, msgs[i as int].values@, name, MAX_DEPTH as nat) {
            EMsgRes::Done(b) => match enc_records(p, big, name, msgs, i + 1) {
                EMsgRes::Done(rest) => EMsgRes::Done(b + rest),
                EMsgRes::Fail(e) => EMsgRes::Fail(e),
            },
            EMsgRes::Fail(e) => EMsgRes::Fail(e),
        }
    }
}

/// A transport header padded with zeros or truncated to the required length.
pub open spec fn resized_header(h: Seq<u8>, required: Option<usize>) -> Seq<u8> {
    match required {
        None => h,
        Some(r) => if h.len() >= r {
            h.take(r as int)
        } else {
            h + Seq::new((r - h.len()) as nat, |i: int| 0u8)
        },
    }
}

/// The header bytes the re-encoder emits: the re-encoded transport, resized,
/// when transport values are given; nothing otherwise.
pub open spec fn frame_header(
    codec: Codec,
    tv: Option<&ValueMap>,
    required: Option<usize>,
) -> Seq<u8> {
    match tv {
        None => Seq::empty(),
        Some(tv) => match codec.resolved.protocol.transport {
            None => resized_header(Seq::empty(), required),
            Some(t) => resized_header(
                tenc_fields(codec.endianness is Big, tv@, Seq::empty(), t.fields@, 0),
                required,
            ),
        },
    }
}

/// Re-encodes a frame from the accepted records only, optionally prefixed by
/// a re-encoded transport header padded or truncated to the original header
/// length: the output is that header followed by each record's encoding, in
/// order, and the first record that cannot encode is the error returned.
pub fn encode_frame_with_compliant_only(
    codec: &Codec,
    message_name: &str,
    result: &FrameDecodeResult,
    transport_values: Option<&ValueMap>,
    transport_len: Option<usize>,
) -> (r: Result<Vec<u8>, CodecError>)
    ensures
        ({
            let header = frame_header(*codec, transport_values, transport_len);
            let recs = enc_records(
                codec.resolved.protocol,
                codec.endianness is Big,
                message_name@,
                result.messages@,
                0,
            );
            match r {
                Ok(out) => recs matches EMsgRes::Done(b) && out@ == header + b,
                Err(e) => recs == EMsgRes::Fail(e@),
            }
        }),
{
    let mut out: Vec<u8> = Vec::new();
    proof {
        assert(out@ =~= Seq::<u8>::empty());
    }
    if let Some(tv) = transport_values {
        let mut header = match codec.encode_transport(tv) {
            Ok(h) => h,
            Err(e) => {
                proof {
                    assert(false);
                }
                return Err(e);
            },
        };
        if let Some(required) = transport_len {
            if header.len() > required {
                header.truncate(required);
            }
            let ghost pre = header@;
            while header.len() < required
                invariant
                    header@.len() <= required,
                    header@ == pre + Seq::new((header@.len() - pre.len()) as nat, |i: int| 0u8),
                    pre.len() <= header@.len(),
                decreases required - header@.len(),
            {
                proof {
                    assert(pre + Seq::new((header@.len() + 1 - pre.len()) as nat, |i: int| 0u8)
                        =~= (pre + Seq::new(
                        (header@.len() - pre.len()) as nat,
                        |i: int| 0u8,
                    )).push(0u8));
                }
                header.push(0u8);
            }
            proof {
                assert(header@ =~= resized_header(
                    frame_header(*codec, transport_values, None),
                    transport_len,
                ));
            }
        }
        let ghost target = frame_header(*codec, transport_values, transport_len);
        proof {
            assert(header@ =~= target);
        }
        let mut j: usize = 0;
        proof {
            assert(out@ =~= header@.take(0));
        }
        while j < header.len()
            invariant
                j <= header@.len(),
                out@ == header@.take(j as int),
            decreases header@.len() - j,
        {
            proof {
                assert(header@.take(j + 1) =~= header@.take(j as int).push(header@[j as int]));
            }
            out.push(header[j]);
            j = j + 1;
        }
        proof {
            assert(header@.take(header@.len() as int) =~= header@);
        }
    }
    let ghost header_bytes = frame_header(*codec, transport_values, transport_len);
    proof {
        assert(out@ == header_bytes);
    }
    let ghost recs0 = enc_records(
        codec.resolved.protocol,
        codec.endianness is Big,
        message_name@,
        result.messages@,
        0,
    );
    let n = result.messages.len();
    let mut i: usize = 0;
    while i < n
        invariant
            i <= n,
            n == result.messages@.len(),
            out@.len() >= header_bytes.len(),
            out@.take(header_bytes.len() as int) == header_bytes,
            recs0 == enc_records(
                codec.resolved.protocol,
                codec.endianness is Big,
                message_name@,
                result.messages@,
                0,
            ),
            ({
                let rest = enc_records(
                    codec.resolved.protocol,
                    codec.endianness is Big,
                    message_name@,
                    result.messages@,
                    i as nat,
                );
                match rest {
                    EMsgRes::Done(b) => recs0 == EMsgRes::Done(
                        out@.skip(header_bytes.len() as int) + b,
                    ),
                    EMsgRes::Fail(e) => recs0 == EMsgRes::Fail(e),
                }
            }),
        decreases n - i,
    {
        let encoded = match codec.encode_message(message_name, &result.messages[i].values) {
            Ok(b) => b,
            Err(e) => {
                return Err(e);
            },
        };
        let ghost out_pre = out@;
        let mut j: usize = 0;
        proof {
            assert(out@ =~= out_pre + encoded@.take(0));
        }
        while j < encoded.len()
            invariant
                j <= encoded@.len(),
                out@ == out_pre + encoded@.take(j as int),
            decreases encoded@.len() - j,
        {
            proof {
                assert(out_pre + encoded@.take(j + 1) =~= (out_pre + encoded@.take(
                    j as int,
                )).push(encoded@[j as int]));
            }
            out.push(encoded[j]);
            j = j + 1;
        }
        proof {
            assert(encoded@.take(encoded@.len() as int) =~= encoded@);
            assert(out@.take(header_bytes.len() as int) =~= header_bytes);
            let rest_new = enc_records(
                codec.resolved.protocol,
                codec.endianness is Big,
                message_name@,
                result.messages@,
                (i + 1) as nat,
            );
            match rest_new {
                EMsgRes::Done(b) => {
                    assert(out@.skip(header_bytes.len() as int) + b =~= out_pre.skip(
                        header_bytes.len() as int,
                    ) + (encoded@ + b));
                },
                EMsgRes::Fail(_) => {},
            }
        }
        i = i + 1;
    }
    proof {
        assert(out@.skip(header_bytes.len() as int) + Seq::<u8>::empty() =~= out@.skip(
            header_bytes.len() as int,
        ));
        assert(header_bytes + out@.skip(header_bytes.len() as int) =~= out@);
    }
    Ok(out)
}

} // verus!
