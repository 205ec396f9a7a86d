//! Outgoing HTTP/1.1 requests.

use vstd::prelude::*;
use vstd::string::*;
use vstd::utf8::encode_utf8;

use crate::body::body_writer::closing_bytes;
use crate::body::framing::chunk_bytes;
use crate::body::BodyWriter;
use crate::error::{failure, Error, ErrorKind, ErrorView};
use crate::headers::{
    all_entries, ascii_text, valid_value, values_of, visible, visible_text, with_inserted,
    with_json_type, FieldName, FieldValue, Headers, MAX_HEADER_NAMES,
};
use crate::message::{Method, Version};
use crate::buffer::all_written;
use crate::multipart::{
    byte_views, encoding, form_pieces, lemma_encoding_is_not_empty, lemma_length_is_encoded_length,
    lemma_pieces_join_to_encoding, measured, FormView, MultipartForm,
};
use crate::sink::{write_all, Sink};
use crate::text::{decimal, decimal_text, string_of};
use crate::uri::Uri;

verus! {

/// An outgoing request: its head, and how far its body was written.
#[derive(Debug)]
pub struct Request {
    pub method: Method,
    pub uri: Uri,
    pub version: Version,
    pub headers: Headers,
    pub body: BodyWriter,
    pub body_size: Option<usize>,
    pub expect_body: bool,
}

/// The fields of a head, as they are written.
pub open spec fn fields_text(entries: Seq<(Seq<char>, Seq<u8>)>) -> Seq<char>
    decreases entries.len(),
{
    if entries.len() == 0 {
        Seq::empty()
    } else {
        fields_text(entries.drop_last()) + entries.last().0 + ": "@ + shown_value(entries.last().1)
            + "\r\n"@
    }
}

/// A field value as it is written: nothing where it is not visible text.
pub open spec fn shown_value(value: Seq<u8>) -> Seq<char> {
    if visible(value) {
        ascii_text(value)
    } else {
        Seq::empty()
    }
}

/// The Host field that a request adds for itself: when none was set and the target has a host.
pub open spec fn host_text(headers: Seq<(Seq<char>, Seq<Seq<u8>>)>, host: Option<Seq<char>>) -> Seq<
    char,
> {
    if values_of(headers, "host"@).len() == 0 && host is Some {
        "Host: "@ + host->0 + "\r\n"@
    } else {
        Seq::empty()
    }
}

/// The Content-Length field that a request adds for a body of known length.
pub open spec fn length_text(size: Option<usize>) -> Seq<char> {
    match size {
        Some(n) => "Content-Length: "@ + decimal(n as nat) + "\r\n"@,
        None => Seq::empty(),
    }
}

/// What the head of a request is made of.
pub struct RequestHead {
    pub method: Seq<char>,
    pub target: Seq<char>,
    pub host: Option<Seq<char>>,
    pub version: Version,
    pub headers: Seq<(Seq<char>, Seq<Seq<u8>>)>,
    pub size: Option<usize>,
}

/// The head of a request, from its start line to the blank line.
pub open spec fn head_text(head: RequestHead) -> Seq<char> {
    head.method + " "@ + head.target + " "@ + head.version.text() + "\r\n"@
        + "User-Agent: may_minihttp\r\nAccept: */*\r\n"@ + host_text(head.headers, head.host)
        + fields_text(all_entries(head.headers)) + length_text(head.size) + "\r\n"@
}

/// How the body of a request is written: GET and HEAD have none, POST is chunked where its length
/// is not known, and other methods have a body only where its length is known.
pub open spec fn writer_for(method: Seq<char>, size: Option<usize>) -> BodyWriter {
    if method == "GET"@ || method == "HEAD"@ {
        BodyWriter::EmptyWriter
    } else {
        match size {
            Some(n) => BodyWriter::SizedWriter(n),
            None => if method == "POST"@ {
                BodyWriter::ChunkWriter
            } else {
                BodyWriter::EmptyWriter
            },
        }
    }
}

/// What was written of a request.
pub struct Written {
    pub writer: BodyWriter,
    pub out: Seq<u8>,
}

/// The state in which a body can be written: the head was written first.
pub open spec fn started(head: RequestHead, state: Written) -> Written {
    if state.writer == BodyWriter::InvalidWriter {
        Written {
            writer: writer_for(head.method, head.size),
            out: state.out + encode_utf8(head_text(head)),
        }
    } else {
        state
    }
}

/// The state after a piece of body was written, and whether all of it was accepted. An empty piece
/// writes nothing, not even the head.
pub open spec fn piece_written(head: RequestHead, state: Written, piece: Seq<u8>) -> (
    Written,
    bool,
) {
    if piece.len() == 0 {
        (state, true)
    } else {
        let ready = started(head, state);
        match ready.writer {
            BodyWriter::SizedWriter(remain) => if piece.len() <= remain {
                (
                    Written {
                        writer: BodyWriter::SizedWriter((remain - piece.len()) as usize),
                        out: ready.out + piece,
                    },
                    true,
                )
            } else {
                (
                    Written {
                        writer: BodyWriter::SizedWriter(0),
                        out: ready.out + piece.take(remain as int),
                    },
                    false,
                )
            },
            BodyWriter::ChunkWriter => (
                Written { writer: ready.writer, out: ready.out + chunk_bytes(piece) },
                true,
            ),
            BodyWriter::EmptyWriter | BodyWriter::InvalidWriter => (ready, false),
        }
    }
}

/// The state after pieces of body were written, up to the first that was not accepted.
pub open spec fn pieces_written(head: RequestHead, state: Written, pieces: Seq<Seq<u8>>) -> (
    Written,
    bool,
)
    decreases pieces.len(),
{
    if pieces.len() == 0 {
        (state, true)
    } else {
        let (before, accepted) = pieces_written(head, state, pieces.drop_last());
        if accepted {
            piece_written(head, before, pieces.last())
        } else {
            (before, false)
        }
    }
}

/// The failure of a write that was not accepted whole.
pub open spec fn short_write() -> ErrorView {
    failure(ErrorKind::WriteZero, "failed to write whole buffer"@)
}

fn append_fields(head: &mut String, entries: &Vec<(String, Vec<u8>)>)
    ensures
        final(head)@ == old(head)@ + fields_text(
            entries@.map_values(|entry: (String, Vec<u8>)| (entry.0@, entry.1@)),
        ),
{
    let ghost views = entries@.map_values(|entry: (String, Vec<u8>)| (entry.0@, entry.1@));
    let mut i: usize = 0;
    proof {
        assert(views.take(0) =~= Seq::<(Seq<char>, Seq<u8>)>::empty());
        assert(head@ =~= old(head)@ + fields_text(views.take(0)));
    }
    while i < entries.len()
        invariant
            i <= entries@.len(),
            views == entries@.map_values(|entry: (String, Vec<u8>)| (entry.0@, entry.1@)),
            head@ == old(head)@ + fields_text(views.take(i as int)),
        decreases entries@.len() - i,
    {
        let entry = &entries[i];
        proof {
            assert(views.take(i + 1).drop_last() =~= views.take(i as int));
            assert(views.take(i + 1).last() == (entry.0@, entry.1@));
        }
        head.append(entry.0.as_str());
        head.append(": ");
        match visible_text(entry.1.as_slice()) {
            Some(text) => {
                let shown = string_of(text.as_slice());
                head.append(shown.as_str());
            },
            None => {},
        }
        head.append("\r\n");
        proof {
            assert(head@ =~= old(head)@ + fields_text(views.take(i + 1)));
        }
        i += 1;
    }
    proof {
        assert(views.take(i as int) =~= views);
    }
}

impl Request {
    /// What the head is made of.
    pub open spec fn head(&self) -> RequestHead {
        RequestHead {
            method: self.method@,
            target: self.uri@.text,
            host: self.uri@.host,
            version: self.version,
            headers: self.headers@,
            size: self.body_size,
        }
    }

    /// How the rest of the body is written.
    pub open spec fn writer(&self) -> BodyWriter {
        self.body
    }

    /// The length that the body was declared to have.
    pub open spec fn declared_size(&self) -> Option<usize> {
        self.body_size
    }

    /// Whether the response to this request may have a body.
    pub open spec fn expects_body(&self) -> bool {
        self.expect_body
    }

    /// A GET request for `/`, of which nothing was written.
    pub fn new() -> (r: Request)
        ensures
            r.method@ == "GET"@,
            r.uri@.text == "/"@,
            r.uri@.host is None,
            r.version == Version::Http11,
            r.headers@ == Seq::<(Seq<char>, Seq<Seq<u8>>)>::empty(),
            r.headers.wf(),
            r.writer() == BodyWriter::InvalidWriter,
            r.declared_size() is None,
            r.expects_body(),
    {
        Request {
            method: Method::get(),
            uri: Uri::root(),
            version: Version::Http11,
            headers: Headers::new(),
            body: BodyWriter::InvalidWriter,
            body_size: None,
            expect_body: true,
        }
    }

    fn write_head_impl<S: Sink>(&self, out: &mut S)
        requires
            old(out).sink_wf(),
        ensures
            final(out).sink_wf(),
            final(out).receiving() == old(out).receiving(),
            final(out).accepted() == old(out).accepted() + encode_utf8(head_text(self.head())),
    {
        let mut head = self.method.as_str().to_owned();
        head.append(" ");
        head.append(self.uri.text.as_str());
        head.append(" ");
        head.append(self.version.as_str());
        head.append("\r\n");
        head.append("User-Agent: may_minihttp\r\nAccept: */*\r\n");
        let ghost opening = head@;
        if !self.headers.contains_key(&FieldName::host()) {
            if let Some(host) = &self.uri.host {
                head.append("Host: ");
                head.append(host.as_str());
                head.append("\r\n");
            }
        }
        proof {
            assert(head@ =~= opening + host_text(self.headers@, self.uri@.host));
        }
        let entries = self.headers.entries();
        append_fields(&mut head, &entries);
        let ghost fields = head@;
        if let Some(len) = self.body_size {
            let digits = decimal_text(len as u128);
            head.append("Content-Length: ");
            head.append(digits.as_str());
            head.append("\r\n");
        }
        proof {
            assert(head@ =~= fields + length_text(self.body_size));
        }
        head.append("\r\n");
        write_all(out, head.as_str().as_bytes());
    }

    fn write_head<S: Sink>(&self, out: &mut S) -> (r: BodyWriter)
        requires
            old(out).sink_wf(),
        ensures
            final(out).sink_wf(),
            final(out).receiving() == old(out).receiving(),
            final(out).settled(),
            final(out).accepted() == old(out).accepted() + encode_utf8(head_text(self.head())),
            r == writer_for(self.head().method, self.head().size),
    {
        let body = if self.method.is("GET") || self.method.is("HEAD") {
            BodyWriter::EmptyWriter
        } else {
            match self.body_size {
                Some(size) => BodyWriter::SizedWriter(size),
                None => if self.method.is("POST") {
                    BodyWriter::ChunkWriter
                } else {
                    BodyWriter::EmptyWriter
                },
            }
        };
        self.write_head_impl(out);
        out.flush();
        body
    }

    /// Set Content-Length before writing the request body (when not using [`Self::send`]).
    pub fn set_content_length(&mut self, len: usize)
        ensures
            final(self).head() == (RequestHead { size: Some(len), ..old(self).head() }),
            final(self).declared_size() == Some(len),
            final(self).writer() == old(self).writer(),
            final(self).expects_body() == old(self).expects_body(),
            final(self).headers == old(self).headers,
    {
        self.body_size = Some(len);
    }

    /// Set whether the request is expected to have a response body.
    pub fn expect_body(&mut self, val: bool)
        ensures
            final(self).expects_body() == val,
            final(self).head() == old(self).head(),
            final(self).declared_size() == old(self).declared_size(),
            final(self).writer() == old(self).writer(),
            final(self).headers == old(self).headers,
    {
        self.expect_body = val;
    }

    /// Whether the response to this request may have a body.
    pub fn expect_body_request(&self) -> (r: bool)
        ensures
            r == self.expects_body(),
    {
        self.expect_body
    }

    /// Write a piece of body, after the head where that was not written yet; the result says how
    /// many bytes were accepted.
    pub fn write<S: Sink>(&mut self, out: &mut S, msg: &[u8]) -> (n: usize)
        requires
            old(out).sink_wf(),
        ensures
            final(out).sink_wf(),
            final(out).receiving() == old(out).receiving(),
            final(self).head() == old(self).head(),
            final(self).headers == old(self).headers,
            final(self).declared_size() == old(self).declared_size(),
            final(self).expects_body() == old(self).expects_body(),
            ({
                let before = Written { writer: old(self).writer(), out: old(out).accepted() };
                let ready = started(old(self).head(), before);
                match ready.writer {
                    BodyWriter::SizedWriter(remain) => {
                        &&& n <= msg@.len() && n <= remain
                        &&& msg@.len() > 0 && remain > 0 ==> n > 0
                        &&& final(self).writer() == BodyWriter::SizedWriter((remain - n) as usize)
                        &&& final(out).accepted() == ready.out + msg@.take(n as int)
                    },
                    BodyWriter::ChunkWriter => {
                        &&& n == msg@.len()
                        &&& final(self).writer() == BodyWriter::ChunkWriter
                        &&& final(out).accepted() == ready.out + chunk_bytes(msg@)
                    },
                    _ => {
                        &&& n == 0
                        &&& final(self).writer() == BodyWriter::EmptyWriter
                        &&& final(out).accepted() == ready.out
                    },
                }
            }),
    {
        if self.body == BodyWriter::InvalidWriter {
            self.body = self.write_head(out);
        }
        let ghost ready = out.accepted();
        let ghost writer = self.body;
        let n: usize = self.body.write(out, msg);
        proof {
            if let BodyWriter::SizedWriter(remain) = writer {
                let offered = crate::body::body_writer::within(msg@, remain as nat);
                assert(offered.take(n as int) =~= msg@.take(n as int));
            }
        }
        n
    }

    /// Write all of a piece of body.
    pub fn write_all<S: Sink>(&mut self, out: &mut S, msg: &[u8]) -> (r: Result<(), Error>)
        requires
            old(out).sink_wf(),
        ensures
            final(out).sink_wf(),
            final(out).receiving() == old(out).receiving(),
            final(self).head() == old(self).head(),
            final(self).headers == old(self).headers,
            final(self).declared_size() == old(self).declared_size(),
            final(self).expects_body() == old(self).expects_body(),
            ({
                let before = Written { writer: old(self).writer(), out: old(out).accepted() };
                let (after, accepted) = piece_written(old(self).head(), before, msg@);
                &&& final(self).writer() == after.writer
                &&& final(out).accepted() == after.out
                &&& match r {
                    Ok(_) => accepted,
                    Err(e) => !accepted && e@ == short_write(),
                }
            }),
    {
        let ghost before = Written { writer: self.writer(), out: out.accepted() };
        let ghost ready = started(self.head(), before);
        let mut done: usize = 0;
        while done < msg.len()
            invariant
                done <= msg@.len(),
                out.sink_wf(),
                out.receiving() == old(out).receiving(),
                self.head() == old(self).head(),
                self.headers == old(self).headers,
                self.declared_size() == old(self).declared_size(),
                self.expects_body() == old(self).expects_body(),
                before == (Written { writer: old(self).writer(), out: old(out).accepted() }),
                ready == started(old(self).head(), before),
                done == 0 ==> self.writer() == old(self).writer() && out.accepted() == old(
                    out,
                ).accepted(),
                done > 0 ==> match ready.writer {
                    BodyWriter::SizedWriter(remain) => done <= remain && self.writer()
                        == BodyWriter::SizedWriter((remain - done) as usize) && out.accepted()
                        == ready.out + msg@.take(done as int),
                    BodyWriter::ChunkWriter => done == msg@.len() && self.writer()
                        == BodyWriter::ChunkWriter && out.accepted() == ready.out + chunk_bytes(
                        msg@,
                    ),
                    _ => false,
                },
            decreases msg@.len() - done,
        {
            let rest = vstd::slice::slice_subrange(msg, done, msg.len());
            let n: usize = self.write(out, rest);
            proof {
                if done == 0 {
                    assert(rest@ =~= msg@);
                }
                assert(msg@.take(done as int) + rest@.take(n as int) =~= msg@.take(done + n));
                assert(ready.out + msg@.take(done as int) + rest@.take(n as int) =~= ready.out
                    + msg@.take(done + n));
            }
            if n == 0 {
                proof {
                    assert(rest@.take(0) =~= Seq::<u8>::empty());
                    if let BodyWriter::SizedWriter(remain) = ready.writer {
                        assert(out.accepted() =~= ready.out + msg@.take(remain as int));
                    }
                }
                return Err(Error::new(ErrorKind::WriteZero, "failed to write whole buffer"));
            }
            done += n;
        }
        proof {
            assert(msg@.take(msg@.len() as int) =~= msg@);
        }
        Ok(())
    }

    /// Write the body in one piece, with its length in the head.
    pub fn send<S: Sink>(&mut self, out: &mut S, body: &[u8]) -> (r: Result<(), Error>)
        requires
            old(out).sink_wf(),
        ensures
            final(out).sink_wf(),
            final(out).receiving() == old(out).receiving(),
            final(self).head() == (RequestHead { size: Some(body@.len() as usize), ..old(
                self,
            ).head() }),
            final(self).expects_body() == old(self).expects_body(),
            ({
                let before = Written { writer: old(self).writer(), out: old(out).accepted() };
                let (after, accepted) = piece_written(final(self).head(), before, body@);
                &&& final(self).writer() == after.writer
                &&& final(out).accepted() == after.out
                &&& match r {
                    Ok(_) => accepted,
                    Err(e) => !accepted && e@ == short_write(),
                }
            }),
    {
        self.set_content_length(body.len());
        self.write_all(out, body)
    }

    /// Write a serialized JSON value as the body. A content type that was set before is kept.
    pub fn send_json<S: Sink>(&mut self, out: &mut S, json: &[u8]) -> (r: Result<(), Error>)
        requires
            old(out).sink_wf(),
            old(self).headers@.len() < MAX_HEADER_NAMES,
        ensures
            final(out).sink_wf(),
            final(out).receiving() == old(out).receiving(),
            final(self).headers@ == with_json_type(old(self).headers@),
            final(self).headers@ == (if values_of(old(self).headers@, "content-type"@).len() > 0 {
                old(self).headers@
            } else {
                with_inserted(
                    old(self).headers@,
                    "content-type"@,
                    encode_utf8("application/json"@),
                )
            }),
            final(self).head() == (RequestHead {
                size: Some(json@.len() as usize),
                headers: final(self).headers@,
                ..old(self).head()
            }),
            final(self).expects_body() == old(self).expects_body(),
            ({
                let before = Written { writer: old(self).writer(), out: old(out).accepted() };
                let (after, accepted) = piece_written(final(self).head(), before, json@);
                &&& final(self).writer() == after.writer
                &&& final(out).accepted() == after.out
                &&& match r {
                    Ok(_) => accepted,
                    Err(e) => !accepted && e@ == short_write(),
                }
            }),
    {
        if !self.headers.contains_key(&FieldName::content_type()) {
            let value = FieldValue::json_media_type();
            self.headers.insert(&FieldName::content_type(), &value);
        }
        self.send(out, json)
    }

    /// Write a multipart/form-data body.
    ///
    /// The form computes its exact length before the request head is written, so the request uses
    /// `Content-Length` rather than chunked transfer encoding.
    pub fn send_multipart<S: Sink>(&mut self, out: &mut S, form: &MultipartForm) -> (r: Result<
        (),
        Error,
    >)
        requires
            old(out).sink_wf(),
            old(self).headers@.len() < MAX_HEADER_NAMES,
        ensures
            final(out).sink_wf(),
            final(out).receiving() == old(out).receiving(),
            final(self).expects_body() == old(self).expects_body(),
            ({
                let media_type = encode_utf8(
                    "multipart/form-data; boundary="@ + form@.boundary,
                );
                let typed = with_inserted(old(self).headers@, "content-type"@, media_type);
                let before = Written { writer: old(self).writer(), out: old(out).accepted() };
                if !valid_value(media_type) {
                    &&& r is Err
                    &&& r->Err_0@ == media_type_failure()
                    &&& *final(self) == *old(self)
                    &&& *final(out) == *old(out)
                } else {
                    match measured(form@) {
                        Err(e) => {
                            &&& r is Err
                            &&& r->Err_0@ == e
                            &&& final(self).head() == (RequestHead { headers: typed, ..old(
                                self,
                            ).head() })
                            &&& final(self).writer() == old(self).writer()
                            &&& *final(out) == *old(out)
                        },
                        Ok(length) => {
                            let head = RequestHead {
                                headers: typed,
                                size: Some(length as usize),
                                ..old(self).head()
                            };
                            let (after, accepted) = pieces_written(
                                head,
                                before,
                                form_pieces(form@),
                            );
                            &&& final(self).head() == head
                            &&& final(self).writer() == after.writer
                            &&& final(out).accepted() == after.out
                            &&& match r {
                                Ok(_) => accepted,
                                Err(e) => !accepted && e@ == short_write(),
                            }
                        },
                    }
                }
            }),
    {
        let media_type = form.content_type();
        let value = match FieldValue::from_bytes(media_type.as_str().as_bytes()) {
            Ok(value) => value,
            Err(reason) => {
                let mut message = "invalid multipart content type: ".to_owned();
                message.append(reason.as_str());
                return Err(Error::with_message(ErrorKind::InvalidInput, message));
            },
        };
        self.headers.insert(&FieldName::content_type(), &value);
        let length: usize = match form.content_length() {
            Ok(length) => length,
            Err(e) => {
                return Err(e);
            },
        };
        self.set_content_length(length);
        let ghost head = self.head();
        let ghost before = Written { writer: self.writer(), out: out.accepted() };
        proof {
            lemma_length_is_encoded_length(form@);
        }
        let pieces = match form.pieces() {
            Ok(pieces) => pieces,
            Err(e) => {
                return Err(e);
            },
        };
        let ghost views = byte_views(pieces@);
        let mut k: usize = 0;
        proof {
            assert(views.take(0) =~= Seq::<Seq<u8>>::empty());
        }
        while k < pieces.len()
            invariant
                k <= pieces@.len(),
                out.sink_wf(),
                out.receiving() == old(out).receiving(),
                views == byte_views(pieces@),
                views == form_pieces(form@),
                valid_value(encode_utf8("multipart/form-data; boundary="@ + form@.boundary)),
                measured(form@) == Ok::<nat, ErrorView>(length as nat),
                before == (Written { writer: old(self).writer(), out: old(out).accepted() }),
                head == (RequestHead {
                    headers: with_inserted(
                        old(self).headers@,
                        "content-type"@,
                        encode_utf8("multipart/form-data; boundary="@ + form@.boundary),
                    ),
                    size: Some(length),
                    ..old(self).head()
                }),
                self.head() == head,
                self.expects_body() == old(self).expects_body(),
                pieces_written(head, before, views.take(k as int)) == (
                    Written { writer: self.writer(), out: out.accepted() },
                    true,
                ),
            decreases pieces@.len() - k,
        {
            proof {
                assert(views.take(k + 1).drop_last() =~= views.take(k as int));
                assert(views.take(k + 1).last() == pieces@[k as int]@);
                lemma_refused_pieces(head, before, views, k + 1);
            }
            match self.write_all(out, pieces[k].as_slice()) {
                Ok(_) => {},
                Err(e) => {
                    return Err(e);
                },
            }
            k += 1;
        }
        proof {
            assert(views.take(k as int) =~= views);
        }
        Ok(())
    }

    /// Hand what was written to the transport; nothing was before the head.
    pub fn flush<S: Sink>(&mut self, out: &mut S)
        requires
            old(out).sink_wf(),
        ensures
            final(out).sink_wf(),
            final(out).receiving() == old(out).receiving(),
            *final(self) == *old(self),
            final(out).accepted() == old(out).accepted(),
            old(self).writer() == BodyWriter::InvalidWriter ==> *final(out) == *old(out),
            old(self).writer() != BodyWriter::InvalidWriter ==> final(out).settled(),
    {
        if self.body != BodyWriter::InvalidWriter {
            self.body.flush(out);
        }
    }

    /// End the request: its head is written if it was not, and its body is brought to its end.
    pub fn finish<S: Sink>(self, out: &mut S)
        requires
            old(out).sink_wf(),
        ensures
            final(out).sink_wf(),
            final(out).receiving() == old(out).receiving(),
            final(out).settled(),
            ({
                let before = Written { writer: self.writer(), out: old(out).accepted() };
                let ready = started(self.head(), before);
                final(out).accepted() == ready.out + closing_bytes(ready.writer)
            }),
    {
        let mut body = self.body;
        if body == BodyWriter::InvalidWriter {
            body = self.write_head(out);
        }
        body.finish(out);
    }
}

/// The refusal of a form whose media type is no field value.
pub open spec fn media_type_failure() -> ErrorView {
    failure(
        ErrorKind::InvalidInput,
        "invalid multipart content type: "@ + "failed to parse header value"@,
    )
}

/// A piece that was not accepted ends the writing.
proof fn lemma_refused_pieces(head: RequestHead, state: Written, pieces: Seq<Seq<u8>>, n: int)
    requires
        0 <= n <= pieces.len(),
    ensures
        !pieces_written(head, state, pieces.take(n)).1 ==> pieces_written(head, state, pieces)
            == pieces_written(head, state, pieces.take(n)),
    decreases pieces.len() - n,
{
    if n == pieces.len() {
        assert(pieces.take(n) =~= pieces);
    } else {
        lemma_refused_pieces(head, state, pieces, n + 1);
        assert(pieces.take(n + 1).drop_last() =~= pieces.take(n));
    }
}

/// Pieces that fit in the declared length are accepted and stand behind one another.
pub proof fn lemma_sized_pieces(head: RequestHead, state: Written, pieces: Seq<Seq<u8>>, size: nat)
    requires
        state.writer == BodyWriter::InvalidWriter,
        head.method != "GET"@,
        head.method != "HEAD"@,
        head.size == Some(size as usize),
        size <= usize::MAX,
        all_written(pieces).len() <= size,
    ensures
        ({
            let (after, accepted) = pieces_written(head, state, pieces);
            let body = all_written(pieces);
            &&& accepted
            &&& body.len() == 0 ==> after == state
            &&& body.len() > 0 ==> after.writer == BodyWriter::SizedWriter(
                (size - body.len()) as usize,
            ) && after.out == state.out + encode_utf8(head_text(head)) + body
        }),
    decreases pieces.len(),
{
    if pieces.len() > 0 {
        let before = pieces.drop_last();
        let last = pieces.last();
        lemma_sized_pieces(head, state, before, size);
        let (mid, _) = pieces_written(head, state, before);
        let opening = state.out + encode_utf8(head_text(head));
        if all_written(before).len() == 0 {
            assert(all_written(pieces) =~= last);
            assert(opening + last =~= opening + all_written(pieces));
        } else {
            assert(opening + all_written(before) + last =~= opening + all_written(pieces));
        }
    }
}

/// A form sent with a fresh request of a method that has a body puts exactly the head, which
/// declares the length of the encoding, and the encoding on the wire.
pub proof fn lemma_form_fits_its_declared_length(head: RequestHead, out: Seq<u8>, form: FormView)
    requires
        head.method != "GET"@,
        head.method != "HEAD"@,
        measured(form) is Ok,
        head.size == Some(measured(form)->Ok_0 as usize),
    ensures
        ({
            let fresh = Written { writer: BodyWriter::InvalidWriter, out };
            let (after, accepted) = pieces_written(head, fresh, form_pieces(form));
            &&& accepted
            &&& after.writer == BodyWriter::SizedWriter(0)
            &&& after.out == out + encode_utf8(head_text(head)) + encoding(form)
        }),
{
    let fresh = Written { writer: BodyWriter::InvalidWriter, out };
    lemma_length_is_encoded_length(form);
    lemma_pieces_join_to_encoding(form);
    lemma_encoding_is_not_empty(form);
    lemma_sized_pieces(head, fresh, form_pieces(form), encoding(form).len());
}

/// A body sent in one piece with a fresh request of a method that has a body puts exactly the
/// head, which declares its length, and the body on the wire.
pub proof fn lemma_body_fits_its_declared_length(head: RequestHead, out: Seq<u8>, body: Seq<u8>)
    requires
        head.method != "GET"@,
        head.method != "HEAD"@,
        0 < body.len() <= usize::MAX,
        head.size == Some(body.len() as usize),
    ensures
        ({
            let fresh = Written { writer: BodyWriter::InvalidWriter, out };
            let (after, accepted) = piece_written(head, fresh, body);
            &&& accepted
            &&& after.writer == BodyWriter::SizedWriter(0)
            &&& after.out == out + encode_utf8(head_text(head)) + body
        }),
{
}

} // verus!
