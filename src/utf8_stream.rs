//! Decoding a stream of byte chunks into text without splitting a character.
use vstd::prelude::*;
use vstd::utf8::{
    decode_utf8, encode_utf8, encode_utf8_decode_utf8, encode_utf8_valid_utf8, pop_first_scalar,
    valid_utf8, valid_utf8_concat,
};

verus! {

/// `v` is the length of the longest prefix of `b` that is valid UTF-8.
pub open spec fn is_valid_prefix_len(b: Seq<u8>, v: int) -> bool {
    &&& 0 <= v <= b.len()
    &&& valid_utf8(b.take(v))
    &&& forall|k: int| v < k <= b.len() ==> !valid_utf8(#[trigger] b.take(k))
}

/// The length of the longest prefix of `b` that is valid UTF-8.
pub open spec fn valid_prefix_len(b: Seq<u8>) -> int {
    choose|v: int| is_valid_prefix_len(b, v)
}

/// More bytes could still make `b` valid UTF-8: it ends in a truncated
/// character, not in a byte that no input can mend.
pub open spec fn completable(b: Seq<u8>) -> bool {
    exists|c: Seq<u8>| valid_utf8(#[trigger] (b + c))
}

pub proof fn lemma_valid_prefix_len(b: Seq<u8>, v: int)
    requires
        is_valid_prefix_len(b, v),
    ensures
        valid_prefix_len(b) == v,
{
    let w = valid_prefix_len(b);
    assert(is_valid_prefix_len(b, w));
    if w < v {
        assert(!valid_utf8(b.take(v)));
    } else if v < w {
        assert(!valid_utf8(b.take(w)));
    }
}

/// Relies on `String::from_utf8`, and on `Utf8Error::valid_up_to` and
/// `Utf8Error::error_len` of its error: the longest valid prefix, and whether
/// the input ended inside a character (1 to 3 bytes from its end) or met a
/// byte that no further input can make valid.
#[verifier::external_body]
fn from_utf8(bytes: Vec<u8>) -> (r: Result<String, (Vec<u8>, usize, bool)>)
    ensures
        r is Ok <==> valid_utf8(bytes@),
        r matches Ok(s) ==> s@ == decode_utf8(bytes@),
        r matches Err((b, v, truncated)) ==> b@ == bytes@,
        r matches Err((b, v, truncated)) ==> is_valid_prefix_len(bytes@, v as int),
        r matches Err((b, v, truncated)) ==> (truncated <==> completable(bytes@)),
        r matches Err((b, v, truncated)) ==> (truncated ==> 1 <= bytes@.len() - v <= 3),
{
    match String::from_utf8(bytes) {
        Ok(s) => Ok(s),
        Err(e) => {
            let v = e.utf8_error().valid_up_to();
            let truncated = e.utf8_error().error_len().is_none();
            Err((e.into_bytes(), v, truncated))
        },
    }
}

/// Why a decoded stream stopped: bytes that are not UTF-8, with the offset of
/// the first invalid byte in the bytes examined, or a failure of the source.
#[derive(Debug, PartialEq, Eq)]
pub enum Utf8StreamError<E> {
    Utf8(usize),
    Transport(E),
}

/// What decoding `chunk` after the held-back bytes `buffer` hands out and
/// holds back; `None` where the bytes can never become valid UTF-8.
pub open spec fn chunk_step(buffer: Seq<u8>, chunk: Seq<u8>) -> Option<(Seq<char>, Seq<u8>)> {
    let all = buffer + chunk;
    if valid_utf8(all) {
        Some((decode_utf8(all), Seq::empty()))
    } else if completable(all) {
        let v = valid_prefix_len(all);
        Some((decode_utf8(all.take(v)), all.skip(v)))
    } else {
        None
    }
}

/// A source of byte chunks, decoded into text chunks.
pub struct Utf8Stream<S> {
    buffer: Vec<u8>,
    pub stream: S,
    terminated: bool,
}

impl<S> Utf8Stream<S> {
    /// The bytes of a truncated character, held back for the next chunk.
    pub closed spec fn pending(&self) -> Seq<u8> {
        self.buffer@
    }

    /// The source of the bytes.
    pub closed spec fn source(&self) -> S {
        self.stream
    }

    /// The stream has ended, cleanly or with an error; it yields nothing more.
    pub closed spec fn is_terminated(&self) -> bool {
        self.terminated
    }

    /// The held-back bytes are the start of a character: at most three, and
    /// not valid on their own.
    pub open spec fn wf(&self) -> bool {
        &&& self.pending().len() <= 3
        &&& self.pending().len() > 0 ==> !valid_utf8(self.pending())
    }

    pub fn new(stream: S) -> (r: Self)
        ensures
            r.wf(),
            r.pending() == Seq::<u8>::empty(),
            !r.is_terminated(),
            r.source() == stream,
    {
        Self { buffer: Vec::new(), stream, terminated: false }
    }

    pub fn terminated(&self) -> (r: bool)
        ensures
            r == self.is_terminated(),
    {
        self.terminated
    }

    /// Takes what the source yielded: a chunk, an error, or its end (`None`).
    /// Returns the next text chunk, an error, or `None` once the stream is
    /// over.
    pub fn next_item<E>(&mut self, item: Option<Result<&[u8], E>>) -> (r: Option<
        Result<String, Utf8StreamError<E>>,
    >)
        requires
            old(self).wf(),
        ensures
            final(self).wf(),
            final(self).source() == old(self).source(),
            old(self).is_terminated() ==> r is None && final(self).pending() == old(self).pending()
                && final(self).is_terminated(),
            !old(self).is_terminated() ==> match item {
                None => {
                    &&& final(self).is_terminated()
                    &&& final(self).pending() == Seq::<u8>::empty()
                    &&& old(self).pending().len() == 0 ==> r is None
                    &&& old(self).pending().len() > 0 ==> r == Some(
                        Err::<String, Utf8StreamError<E>>(
                            Utf8StreamError::Utf8(valid_prefix_len(old(self).pending()) as usize),
                        ),
                    )
                },
                Some(Err(e)) => {
                    &&& final(self).is_terminated()
                    &&& final(self).pending() == old(self).pending()
                    &&& r == Some(Err::<String, Utf8StreamError<E>>(Utf8StreamError::Transport(e)))
                },
                Some(Ok(b)) => match chunk_step(old(self).pending(), b@) {
                    Some((text, rest)) => {
                        &&& !final(self).is_terminated()
                        &&& final(self).pending() == rest
                        &&& r matches Some(Ok(s)) && s@ == text
                    },
                    None => {
                        &&& final(self).is_terminated()
                        &&& r == Some(
                            Err::<String, Utf8StreamError<E>>(
                                Utf8StreamError::Utf8(
                                    valid_prefix_len(old(self).pending() + b@) as usize,
                                ),
                            ),
                        )
                    },
                },
            },
    {
        if self.terminated {
            return None;
        }
        match item {
            None => {
                self.terminated = true;
                if self.buffer.len() == 0 {
                    None
                } else {
                    let ghost held = self.buffer@;
                    let bytes = self.buffer.split_off(0);
                    assert(bytes@ =~= held);
                    match from_utf8(bytes) {
                        Ok(s) => Some(Ok(s)),
                        Err((_, v, _)) => {
                            proof {
                                lemma_valid_prefix_len(held, v as int);
                            }
                            Some(Err(Utf8StreamError::Utf8(v)))
                        },
                    }
                }
            },
            Some(Err(e)) => {
                self.terminated = true;
                Some(Err(Utf8StreamError::Transport(e)))
            },
            Some(Ok(b)) => {
                let ghost held = self.buffer@;
                let mut bytes = self.buffer.split_off(0);
                bytes.extend_from_slice(b);
                let ghost all = bytes@;
                assert(all =~= held + b@);
                match from_utf8(bytes) {
                    Ok(s) => Some(Ok(s)),
                    Err((mut head, v, truncated)) => {
                        proof {
                            lemma_valid_prefix_len(all, v as int);
                        }
                        if truncated {
                            let rest = head.split_off(v);
                            assert(head@ =~= all.take(v as int));
                            assert(rest@ =~= all.skip(v as int));
                            proof {
                                if valid_utf8(rest@) {
                                    valid_utf8_concat(head@, rest@);
                                    assert(head@ + rest@ =~= all);
                                    assert(all.take(all.len() as int) =~= all);
                                }
                            }
                            self.buffer = rest;
                            match from_utf8(head) {
                                Ok(s) => Some(Ok(s)),
                                Err(_) => Some(Err(Utf8StreamError::Utf8(v))),
                            }
                        } else {
                            self.terminated = true;
                            Some(Err(Utf8StreamError::Utf8(v)))
                        }
                    },
                }
            },
        }
    }
}


/// Decoding two valid byte sequences one after the other gives the text of
/// the two together; and what follows a valid prefix of valid bytes is valid.
pub proof fn lemma_decode_concat(a: Seq<u8>, b: Seq<u8>)
    requires
        valid_utf8(a),
    ensures
        valid_utf8(a + b) <==> valid_utf8(b),
        valid_utf8(b) ==> decode_utf8(a + b) == decode_utf8(a) + decode_utf8(b),
    decreases a.len(),
{
    if a.len() == 0 {
        assert(a + b =~= b);
        assert(decode_utf8(a) + decode_utf8(b) =~= decode_utf8(b));
    } else {
        let rest = pop_first_scalar(a);
        assert(pop_first_scalar(a + b) =~= rest + b);
        lemma_decode_concat(rest, b);
        if valid_utf8(b) {
            valid_utf8_concat(a, b);
            let c = seq![vstd::utf8::decode_first_scalar(a) as char];
            assert(c + (decode_utf8(rest) + decode_utf8(b)) =~= (c + decode_utf8(rest))
                + decode_utf8(b));
        }
    }
}

proof fn lemma_prefix_len_exists(b: Seq<u8>, k: int)
    requires
        0 <= k <= b.len(),
        forall|j: int| k < j <= b.len() ==> !valid_utf8(#[trigger] b.take(j)),
    ensures
        is_valid_prefix_len(b, valid_prefix_len(b)),
    decreases k,
{
    if valid_utf8(b.take(k)) {
        assert(is_valid_prefix_len(b, k));
    } else {
        assert(b.take(0) =~= Seq::<u8>::empty());
        lemma_prefix_len_exists(b, k - 1);
    }
}

/// What decoding `chunks` one after another hands out, starting with
/// `buffer` held back, and what it holds back at the end; `None` where it
/// fails.
pub open spec fn decode_chunks(buffer: Seq<u8>, chunks: Seq<Seq<u8>>) -> Option<
    (Seq<char>, Seq<u8>),
>
    decreases chunks.len(),
{
    if chunks.len() == 0 {
        Some((seq![], buffer))
    } else {
        match chunk_step(buffer, chunks[0]) {
            None => None,
            Some((text, rest)) => match decode_chunks(rest, chunks.drop_first()) {
                None => None,
                Some((more, left)) => Some((text + more, left)),
            },
        }
    }
}

proof fn lemma_decode_chunks_after(buffer: Seq<u8>, chunks: Seq<Seq<u8>>)
    requires
        buffer.len() > 0 ==> !valid_utf8(buffer),
        valid_utf8(buffer + chunks.flatten()),
    ensures
        decode_chunks(buffer, chunks) == Some(
            (decode_utf8(buffer + chunks.flatten()), Seq::<u8>::empty()),
        ),
    decreases chunks.len(),
{
    if chunks.len() == 0 {
        assert(buffer + chunks.flatten() =~= buffer);
        assert(buffer.len() == 0);
        assert(decode_utf8(buffer) =~= Seq::<char>::empty());
    } else {
        let all = buffer + chunks[0];
        let f = chunks.drop_first().flatten();
        assert(buffer + chunks.flatten() =~= all + f);
        if valid_utf8(all) {
            lemma_decode_concat(all, f);
            assert(Seq::<u8>::empty() + f =~= f);
            lemma_decode_chunks_after(Seq::<u8>::empty(), chunks.drop_first());
        } else {
            assert(completable(all));
            lemma_prefix_len_exists(all, all.len() as int);
            let v = valid_prefix_len(all);
            let p = all.take(v);
            let q = all.skip(v);
            assert(all + f =~= p + (q + f));
            lemma_decode_concat(p, q + f);
            if valid_utf8(q) {
                valid_utf8_concat(p, q);
                assert(p + q =~= all);
                assert(all.take(all.len() as int) =~= all);
            }
            lemma_decode_chunks_after(q, chunks.drop_first());
        }
    }
}

/// Valid UTF-8 cut into chunks anywhere decodes to the same text as when it
/// comes whole, and nothing is held back at the end.
pub proof fn lemma_chunk_invariance(chunks: Seq<Seq<u8>>)
    requires
        valid_utf8(chunks.flatten()),
    ensures
        decode_chunks(Seq::empty(), chunks) == Some(
            (decode_utf8(chunks.flatten()), Seq::<u8>::empty()),
        ),
        decode_chunks(Seq::empty(), chunks) == chunk_step(Seq::empty(), chunks.flatten()),
{
    assert(Seq::<u8>::empty() + chunks.flatten() =~= chunks.flatten());
    lemma_decode_chunks_after(Seq::empty(), chunks);
}

/// The encoding of any text, its characters cut across chunks anywhere,
/// decodes to exactly that text: each character once and unchanged.
pub proof fn lemma_split_characters(text: Seq<char>, chunks: Seq<Seq<u8>>)
    requires
        chunks.flatten() == encode_utf8(text),
    ensures
        decode_chunks(Seq::empty(), chunks) == Some((text, Seq::<u8>::empty())),
{
    encode_utf8_valid_utf8(text);
    encode_utf8_decode_utf8(text);
    lemma_chunk_invariance(chunks);
}

} // verus!
