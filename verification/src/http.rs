//! The HTTP side: request heads, fixed responses, and the course of a connection.

use vstd::prelude::*;
use vstd::string::*;

use crate::request::{bytes_of, request_of, RequestModel};
use crate::text::{
    decimal, find_key, first_at, is_first_at, law_digits_end_at_the_first_other_byte,
    law_first_place_is_found, leading_digits, lemma_digit_count, lemma_first_at, lemma_no_first_at,
    matches_at, occurs_at, read_digits,
};
use crate::vector::VectorizeError;

verus! {

/// How many bytes of a connection are held at a time.
pub const MAX_BUF: usize = 2048;

/// What a request asks for.
#[derive(Debug, Clone, Copy, PartialEq, Eq, Structural)]
pub enum Method {
    GetReady,
    PostFraudScore,
    Unknown,
}

/// The head of a request.
#[derive(Debug, Clone, Copy, PartialEq, Eq, Structural)]
pub struct RequestHead {
    pub method: Method,
    /// The number of bytes of the body.
    pub content_length: usize,
    /// Where the blank line starts that ends the head.
    pub header_end: usize,
}

/// What the bytes of a connection hold of a request head.
#[derive(Debug, Clone, Copy, PartialEq, Eq, Structural)]
pub enum Head {
    /// The blank line has not come yet.
    Incomplete,
    Complete(RequestHead),
    /// The length of the body cannot be counted.
    TooLarge,
}

/// The end of a line and a blank line.
pub open spec fn blank_line() -> Seq<u8> {
    seq![0x0du8, 0x0au8, 0x0du8, 0x0au8]
}

/// A letter in lower case; any other byte as it is.
pub open spec fn lower(byte: u8) -> u8 {
    if 0x41 <= byte <= 0x5a {
        (byte + 0x20) as u8
    } else {
        byte
    }
}

/// `needle` stands in `hay` at `i`, upper and lower case being equal.
pub open spec fn occurs_in_any_case(hay: Seq<u8>, needle: Seq<u8>, i: int) -> bool {
    0 <= i && i + needle.len() <= hay.len() && forall|k: int|
        0 <= k < needle.len() ==> lower(hay[i + k]) == lower(#[trigger] needle[k])
}

/// `i` is the first place at which `needle` stands in `hay` in any case.
pub open spec fn is_first_in_any_case(hay: Seq<u8>, needle: Seq<u8>, i: int) -> bool {
    occurs_in_any_case(hay, needle, i) && forall|j: int|
        0 <= j < i ==> !#[trigger] occurs_in_any_case(hay, needle, j)
}

/// The first position from `i` on that holds no blank.
pub open spec fn after_blanks(s: Seq<u8>, i: int) -> int
    decreases s.len() - i,
{
    if 0 <= i < s.len() && s[i] == 0x20 {
        after_blanks(s, i + 1)
    } else {
        i
    }
}

/// The number behind the name that ends at `i`: blanks, then digits.
pub open spec fn number_behind(headers: Seq<u8>, i: int) -> int {
    decimal(leading_digits(headers.skip(after_blanks(headers, i))))
}

/// The name of the header that holds the length of the body.
pub open spec fn length_name() -> Seq<u8> {
    bytes_of("content-length:")
}

/// The length of the body according to the headers: the number behind the first mention of
/// `content-length:`, 0 where there is none.
pub open spec fn body_length(headers: Seq<u8>) -> int {
    if exists|i: int| is_first_in_any_case(headers, length_name(), i) {
        let i = choose|i: int| is_first_in_any_case(headers, length_name(), i);
        number_behind(headers, i + length_name().len())
    } else {
        0
    }
}

/// What a request asks for, by how it starts.
pub open spec fn method_of(buf: Seq<u8>) -> Method {
    if occurs_at(buf, bytes_of("GET /ready"), 0) {
        Method::GetReady
    } else if occurs_at(buf, bytes_of("POST /fraud-score"), 0) {
        Method::PostFraudScore
    } else {
        Method::Unknown
    }
}

/// What `buf` holds of a request head.
pub open spec fn head_of(buf: Seq<u8>) -> Head {
    match first_at(buf, blank_line(), 0) {
        None => Head::Incomplete,
        Some(end) => {
            let length = body_length(buf.take(end));
            if length > usize::MAX {
                Head::TooLarge
            } else {
                Head::Complete(
                    RequestHead {
                        method: method_of(buf),
                        content_length: length as usize,
                        header_end: end as usize,
                    },
                )
            }
        },
    }
}

/// Where the blank line starts that ends the head.
pub fn find_header_end(buf: &[u8]) -> (end: Option<usize>)
    ensures
        match end {
            Some(i) => first_at(buf@, blank_line(), 0) == Some(i as int) && is_first_at(
                buf@,
                blank_line(),
                0,
                i as int,
            ),
            None => first_at(buf@, blank_line(), 0) is None && forall|j: int|
                0 <= j ==> !#[trigger] occurs_at(buf@, blank_line(), j),
        },
{
    let blank: [u8; 4] = [0x0du8, 0x0au8, 0x0du8, 0x0au8];
    assert(blank@ =~= blank_line());
    find_key(buf, blank.as_slice())
}

fn lower_byte(byte: u8) -> (lowered: u8)
    ensures
        lowered == lower(byte),
        0x41 <= byte <= 0x5a ==> lowered == byte + 0x20,
        byte < 0x41 || byte > 0x5a ==> lowered == byte,
{
    if byte >= 0x41 && byte <= 0x5a {
        byte + 0x20
    } else {
        byte
    }
}

fn matches_in_any_case(hay: &[u8], needle: &[u8], i: usize) -> (found: bool)
    ensures
        found == occurs_in_any_case(hay@, needle@, i as int),
{
    if i > hay.len() || needle.len() > hay.len() - i {
        return false;
    }
    let mut k: usize = 0;
    while k < needle.len()
        invariant
            0 <= k <= needle@.len(),
            i + needle@.len() <= hay@.len(),
            hay.len() == hay@.len(),
            forall|j: int| 0 <= j < k ==> lower(hay@[i + j]) == lower(#[trigger] needle@[j]),
        decreases needle@.len() - k,
    {
        if lower_byte(hay[i + k]) != lower_byte(needle[k]) {
            assert(lower(needle@[k as int]) != lower(hay@[i + k]));
            return false;
        }
        k = k + 1;
    }
    true
}

proof fn lemma_body_length(headers: Seq<u8>, i: int)
    requires
        is_first_in_any_case(headers, length_name(), i),
    ensures
        body_length(headers) == number_behind(headers, i + length_name().len()),
{
    let c = choose|c: int| is_first_in_any_case(headers, length_name(), c);
    if c < i {
        assert(!occurs_in_any_case(headers, length_name(), c));
    } else if i < c {
        assert(!occurs_in_any_case(headers, length_name(), i));
    }
}

/// The length of the body according to the headers; nothing where it cannot be counted.
pub fn content_length_from_headers(headers: &[u8]) -> (length: Option<usize>)
    ensures
        match length {
            Some(value) => value == body_length(headers@),
            None => body_length(headers@) > usize::MAX,
        },
{
    let needle = "content-length:".as_bytes();
    assert(headers.len() == headers@.len());
    let mut i: usize = 0;
    while i < headers.len() && needle.len() <= headers.len() - i
        invariant
            0 <= i <= headers@.len(),
            headers.len() == headers@.len(),
            needle@ == length_name(),
            forall|j: int| 0 <= j < i ==> !#[trigger] occurs_in_any_case(headers@, needle@, j),
        decreases headers@.len() - i,
    {
        if matches_in_any_case(headers, needle, i) {
            proof {
                lemma_body_length(headers@, i as int);
            }
            let start: usize = i + needle.len();
            let mut j: usize = start;
            while j < headers.len() && headers[j] == 0x20
                invariant
                    0 <= j <= headers@.len(),
                    after_blanks(headers@, j as int) == after_blanks(headers@, start as int),
                decreases headers@.len() - j,
            {
                j = j + 1;
            }
            return match read_digits(headers, j, usize::MAX as u64) {
                Some((value, end)) => Some(value as usize),
                None => None,
            };
        }
        i = i + 1;
    }
    proof {
        reveal_strlit("content-length:");
        vstd::utf8::encode_utf8_first_scalar("content-length:"@);
    }
    Some(0)
}

/// Reads the head of a request.
pub fn parse_request_head(buf: &[u8]) -> (head: Head)
    ensures
        head == head_of(buf@),
        head matches Head::Complete(found) ==> found.header_end + 4 <= buf@.len(),
{
    let header_end: usize = match find_header_end(buf) {
        Some(end) => end,
        None => {
            return Head::Incomplete;
        },
    };
    let method = if matches_at(buf, "GET /ready".as_bytes(), 0) {
        Method::GetReady
    } else if matches_at(buf, "POST /fraud-score".as_bytes(), 0) {
        Method::PostFraudScore
    } else {
        Method::Unknown
    };
    assert(buf@.subrange(0, header_end as int) =~= buf@.take(header_end as int));
    match content_length_from_headers(&buf[0..header_end]) {
        Some(content_length) => Head::Complete(RequestHead { method, content_length, header_end }),
        None => Head::TooLarge,
    }
}

/// The answer to a scored request: whether it is approved, and the share of fraud votes.
pub open spec fn score_text(votes: int) -> &'static str {
    if votes == 0 {
        "HTTP/1.1 200 OK\r\nContent-Type: application/json\r\nContent-Length: 35\r\nConnection: keep-alive\r\n\r\n{\"approved\":true,\"fraud_score\":0.0}"
    } else if votes == 1 {
        "HTTP/1.1 200 OK\r\nContent-Type: application/json\r\nContent-Length: 35\r\nConnection: keep-alive\r\n\r\n{\"approved\":true,\"fraud_score\":0.2}"
    } else if votes == 2 {
        "HTTP/1.1 200 OK\r\nContent-Type: application/json\r\nContent-Length: 35\r\nConnection: keep-alive\r\n\r\n{\"approved\":true,\"fraud_score\":0.4}"
    } else if votes == 3 {
        "HTTP/1.1 200 OK\r\nContent-Type: application/json\r\nContent-Length: 36\r\nConnection: keep-alive\r\n\r\n{\"approved\":false,\"fraud_score\":0.6}"
    } else if votes == 4 {
        "HTTP/1.1 200 OK\r\nContent-Type: application/json\r\nContent-Length: 36\r\nConnection: keep-alive\r\n\r\n{\"approved\":false,\"fraud_score\":0.8}"
    } else {
        "HTTP/1.1 200 OK\r\nContent-Type: application/json\r\nContent-Length: 36\r\nConnection: keep-alive\r\n\r\n{\"approved\":false,\"fraud_score\":1.0}"
    }
}

/// The answer to a scored request.
pub fn fraud_response(votes: usize) -> (response: &'static [u8])
    ensures
        response@ == bytes_of(score_text(votes as int)),
{
    let text: &'static str = match votes {
        0 => "HTTP/1.1 200 OK\r\nContent-Type: application/json\r\nContent-Length: 35\r\nConnection: keep-alive\r\n\r\n{\"approved\":true,\"fraud_score\":0.0}",
        1 => "HTTP/1.1 200 OK\r\nContent-Type: application/json\r\nContent-Length: 35\r\nConnection: keep-alive\r\n\r\n{\"approved\":true,\"fraud_score\":0.2}",
        2 => "HTTP/1.1 200 OK\r\nContent-Type: application/json\r\nContent-Length: 35\r\nConnection: keep-alive\r\n\r\n{\"approved\":true,\"fraud_score\":0.4}",
        3 => "HTTP/1.1 200 OK\r\nContent-Type: application/json\r\nContent-Length: 36\r\nConnection: keep-alive\r\n\r\n{\"approved\":false,\"fraud_score\":0.6}",
        4 => "HTTP/1.1 200 OK\r\nContent-Type: application/json\r\nContent-Length: 36\r\nConnection: keep-alive\r\n\r\n{\"approved\":false,\"fraud_score\":0.8}",
        _ => "HTTP/1.1 200 OK\r\nContent-Type: application/json\r\nContent-Length: 36\r\nConnection: keep-alive\r\n\r\n{\"approved\":false,\"fraud_score\":1.0}",
    };
    text.as_bytes()
}

/// What is answered to the question whether the service is ready.
pub open spec fn ready_text(ready: bool) -> &'static str {
    if ready {
        "HTTP/1.1 200 OK\r\nContent-Length: 0\r\nConnection: keep-alive\r\n\r\n"
    } else {
        "HTTP/1.1 503 Service Unavailable\r\nContent-Length: 0\r\nConnection: keep-alive\r\n\r\n"
    }
}

/// The answer to the question whether the service is ready, on a connection that stays open.
pub fn ready_response(ready: bool) -> (response: &'static [u8])
    ensures
        response@ == bytes_of(ready_text(ready)),
        response@ == bytes_of(
            if ready {
                "HTTP/1.1 200 OK\r\nContent-Length: 0\r\nConnection: keep-alive\r\n\r\n"
            } else {
                "HTTP/1.1 503 Service Unavailable\r\nContent-Length: 0\r\nConnection: keep-alive\r\n\r\n"
            },
        ),
{
    let text: &'static str = if ready {
        "HTTP/1.1 200 OK\r\nContent-Length: 0\r\nConnection: keep-alive\r\n\r\n"
    } else {
        "HTTP/1.1 503 Service Unavailable\r\nContent-Length: 0\r\nConnection: keep-alive\r\n\r\n"
    };
    text.as_bytes()
}

/// What is answered on a connection that asks for nothing else.
pub open spec fn health_text(ready: bool) -> &'static str {
    if ready {
        "HTTP/1.1 200 OK\r\nContent-Length: 0\r\n\r\n"
    } else {
        "HTTP/1.1 503 Service Unavailable\r\nContent-Length: 0\r\n\r\n"
    }
}

/// The answer on the connection that only asks whether the service is ready.
pub fn health_response(ready: bool) -> (response: &'static [u8])
    ensures
        response@ == bytes_of(health_text(ready)),
        response@ == bytes_of(
            if ready {
                "HTTP/1.1 200 OK\r\nContent-Length: 0\r\n\r\n"
            } else {
                "HTTP/1.1 503 Service Unavailable\r\nContent-Length: 0\r\n\r\n"
            },
        ),
{
    let text: &'static str = if ready {
        "HTTP/1.1 200 OK\r\nContent-Length: 0\r\n\r\n"
    } else {
        "HTTP/1.1 503 Service Unavailable\r\nContent-Length: 0\r\n\r\n"
    };
    text.as_bytes()
}

/// What is answered to a request that cannot be read.
pub open spec fn refusal_text() -> &'static str {
    "HTTP/1.1 400 Bad Request\r\nContent-Length: 0\r\nConnection: keep-alive\r\n\r\n"
}

/// The answer to a request that cannot be read.
pub fn bad_request_response() -> (response: &'static [u8])
    ensures
        response@ == bytes_of(refusal_text()),
        response@ == bytes_of(
            "HTTP/1.1 400 Bad Request\r\nContent-Length: 0\r\nConnection: keep-alive\r\n\r\n",
        ),
{
    "HTTP/1.1 400 Bad Request\r\nContent-Length: 0\r\nConnection: keep-alive\r\n\r\n".as_bytes()
}

/// What is answered to a request for anything else.
pub open spec fn missing_text() -> &'static str {
    "HTTP/1.1 404 Not Found\r\nContent-Length: 0\r\nConnection: close\r\n\r\n"
}

/// The answer to a request for anything else; the connection is closed behind it.
pub fn not_found_response() -> (response: &'static [u8])
    ensures
        response@ == bytes_of(missing_text()),
        response@ == bytes_of(
            "HTTP/1.1 404 Not Found\r\nContent-Length: 0\r\nConnection: close\r\n\r\n",
        ),
{
    "HTTP/1.1 404 Not Found\r\nContent-Length: 0\r\nConnection: close\r\n\r\n".as_bytes()
}

/// The bytes of the answer to a scoring request: by the fraud votes where it could be
/// scored, else that it cannot be read.
pub open spec fn scored_bytes(votes: Option<int>) -> Seq<u8> {
    match votes {
        Some(count) => bytes_of(score_text(count)),
        None => bytes_of(
            "HTTP/1.1 400 Bad Request\r\nContent-Length: 0\r\nConnection: keep-alive\r\n\r\n",
        ),
    }
}

/// The answer to a scoring request: by its fraud votes where it could be scored, else that it
/// cannot be read.
pub fn scored_response(votes: Option<usize>) -> (response: &'static [u8])
    ensures
        response@ == scored_bytes(
            match votes {
                Some(count) => Some(count as int),
                None => None,
            },
        ),
{
    match votes {
        Some(count) => fraud_response(count),
        None => bad_request_response(),
    }
}

/// What is answered where no worker takes the connection.
pub open spec fn unavailable_text() -> &'static str {
    "HTTP/1.1 503 Service Unavailable\r\nContent-Length: 0\r\nConnection: close\r\n\r\n"
}

/// The answer where no worker takes the connection.
pub fn unavailable_response() -> (response: &'static [u8])
    ensures
        response@ == bytes_of(unavailable_text()),
        response@ == bytes_of(
            "HTTP/1.1 503 Service Unavailable\r\nContent-Length: 0\r\nConnection: close\r\n\r\n",
        ),
{
    "HTTP/1.1 503 Service Unavailable\r\nContent-Length: 0\r\nConnection: close\r\n\r\n".as_bytes()
}

/// The state of a connection.
pub ghost struct Course {
    /// The bytes that are held.
    pub buffer: Seq<u8>,
    /// The head of the request at the start of the buffer, once it is complete.
    pub head: Option<RequestHead>,
    /// Nothing more is read or answered.
    pub closed: bool,
}

/// What a connection does next.
#[derive(Debug, Clone, Copy, PartialEq, Eq, Structural)]
pub enum Step {
    /// Wait for up to `room` bytes.
    Read { room: usize },
    /// Answer whether the service is ready.
    AnswerReady,
    /// Score the request and answer.
    Score,
    /// Answer that there is nothing here, and close.
    NotFound,
    /// Close without an answer.
    Close,
}

/// Where the request with `head` ends.
pub open spec fn request_end(head: RequestHead) -> int {
    head.header_end + 4 + head.content_length
}

/// What a connection does next: it closes where a request cannot fit, reads until the
/// request is there, and then answers it.
pub open spec fn step_of(course: Course) -> Step {
    if course.closed {
        Step::Close
    } else {
        match course.head {
            None => if course.buffer.len() >= MAX_BUF {
                Step::Close
            } else {
                Step::Read { room: (MAX_BUF - course.buffer.len()) as usize }
            },
            Some(head) => if course.buffer.len() < request_end(head) {
                if request_end(head) > MAX_BUF {
                    Step::Close
                } else {
                    Step::Read { room: (MAX_BUF - course.buffer.len()) as usize }
                }
            } else {
                match head.method {
                    Method::GetReady => Step::AnswerReady,
                    Method::PostFraudScore => Step::Score,
                    Method::Unknown => Step::NotFound,
                }
            },
        }
    }
}

/// The state after more bytes have come; none means that the peer has closed.
pub open spec fn after_bytes(course: Course, bytes: Seq<u8>) -> Course {
    if bytes.len() == 0 {
        Course { closed: true, ..course }
    } else {
        let buffer = course.buffer + bytes;
        match course.head {
            Some(_) => Course { buffer, ..course },
            None => match head_of(buffer) {
                Head::Incomplete => Course { buffer, ..course },
                Head::Complete(head) => Course { buffer, head: Some(head), ..course },
                Head::TooLarge => Course { buffer, closed: true, ..course },
            },
        }
    }
}

/// The state after the request has been answered: what came behind it is kept.
pub open spec fn after_answer(course: Course) -> Course {
    Course { buffer: course.buffer.skip(request_end(course.head->0)), head: None, ..course }
}

/// One connection, between reads and answers.
pub struct Connection {
    buffer: Vec<u8>,
    head: Option<RequestHead>,
    closed: bool,
}

impl Connection {
    pub closed spec fn view(&self) -> Course {
        Course { buffer: self.buffer@, head: self.head, closed: self.closed }
    }

    /// No more than the buffer holds, and a head lies within it.
    pub closed spec fn wf(self) -> bool {
        self.buffer@.len() <= MAX_BUF && (self.head matches Some(head) ==> head.header_end + 4
            <= self.buffer@.len())
    }

    /// A connection never holds more than its buffer.
    pub proof fn law_buffer_is_bounded(self)
        requires
            self.wf(),
        ensures
            self@.buffer.len() <= MAX_BUF,
    {
    }

    pub fn new() -> (connection: Self)
        ensures
            connection.wf(),
            connection@ == (Course { buffer: Seq::empty(), head: None, closed: false }),
    {
        let connection = Connection { buffer: Vec::new(), head: None, closed: false };
        assert(connection@.buffer =~= Seq::empty());
        connection
    }

    /// What to do next.
    pub fn next_step(&self) -> (step: Step)
        requires
            self.wf(),
        ensures
            step == step_of(self@),
            step matches Step::Read { room } ==> 0 < room && self@.buffer.len() + room == MAX_BUF,
    {
        if self.closed {
            return Step::Close;
        }
        let filled: usize = self.buffer.len();
        match self.head {
            None => {
                if filled >= MAX_BUF {
                    Step::Close
                } else {
                    Step::Read { room: MAX_BUF - filled }
                }
            },
            Some(head) => {
                let body_start: usize = head.header_end + 4;
                if head.content_length > MAX_BUF - body_start {
                    return Step::Close;
                }
                let end: usize = body_start + head.content_length;
                if filled < end {
                    Step::Read { room: MAX_BUF - filled }
                } else {
                    match head.method {
                        Method::GetReady => Step::AnswerReady,
                        Method::PostFraudScore => Step::Score,
                        Method::Unknown => Step::NotFound,
                    }
                }
            },
        }
    }

    /// Takes in the bytes of one read; none means that the peer has closed.
    pub fn received(&mut self, bytes: &[u8])
        requires
            old(self).wf(),
            step_of(old(self)@) matches Step::Read { room } && bytes@.len() <= room,
        ensures
            final(self).wf(),
            final(self)@ == after_bytes(old(self)@, bytes@),
    {
        if bytes.len() == 0 {
            self.closed = true;
            return ;
        }
        self.buffer.extend_from_slice(bytes);
        assert(self.buffer@ =~= old(self)@.buffer + bytes@);
        if self.head.is_none() {
            match parse_request_head(self.buffer.as_slice()) {
                Head::Incomplete => {},
                Head::Complete(head) => {
                    self.head = Some(head);
                },
                Head::TooLarge => {
                    self.closed = true;
                },
            }
        }
    }

    /// The body of the request that is to be scored.
    pub fn body(&self) -> (body: &[u8])
        requires
            self.wf(),
            step_of(self@) == Step::Score,
        ensures
            self@.head matches Some(head) && body@ == self@.buffer.subrange(
                head.header_end + 4,
                request_end(head),
            ) && body@.len() == head.content_length,
    {
        match self.head {
            Some(head) => {
                let start: usize = head.header_end + 4;
                let end: usize = start + head.content_length;
                &self.buffer.as_slice()[start..end]
            },
            None => self.buffer.as_slice(),
        }
    }

    /// Goes on behind a request that has been answered.
    pub fn answered(&mut self)
        requires
            old(self).wf(),
            step_of(old(self)@) == Step::Score || step_of(old(self)@) == Step::AnswerReady,
        ensures
            final(self).wf(),
            final(self)@ == after_answer(old(self)@),
    {
        let mut kept: Vec<u8> = Vec::new();
        if let Some(head) = self.head {
            let mut i: usize = head.header_end + 4 + head.content_length;
            let ghost end = i as int;
            while i < self.buffer.len()
                invariant
                    0 <= end <= i <= self.buffer@.len(),
                    kept@ == self.buffer@.subrange(end, i as int),
                decreases self.buffer@.len() - i,
            {
                kept.push(self.buffer[i]);
                assert(kept@ =~= self.buffer@.subrange(end, i + 1));
                i = i + 1;
            }
            assert(kept@ =~= self.buffer@.skip(end));
        }
        self.buffer = kept;
        self.head = None;
    }
}

/// More bytes do not change where the head ends.
proof fn lemma_header_end_stays(buf: Seq<u8>, more: Seq<u8>)
    requires
        first_at(buf, blank_line(), 0) is Some,
    ensures
        first_at(buf + more, blank_line(), 0) == first_at(buf, blank_line(), 0),
        is_first_at(buf, blank_line(), 0, first_at(buf, blank_line(), 0)->0),
{
    let i = first_at(buf, blank_line(), 0)->0;
    let all = buf + more;
    reveal(first_at);
    assert(is_first_at(buf, blank_line(), 0, i));
    assert(all.subrange(i, i + 4) =~= buf.subrange(i, i + 4));
    assert forall|j: int| 0 <= j < i implies !#[trigger] occurs_at(all, blank_line(), j) by {
        assert(all.subrange(j, j + 4) =~= buf.subrange(j, j + 4));
        assert(!occurs_at(buf, blank_line(), j));
    }
    lemma_first_at(all, blank_line(), 0, i);
}

/// What a buffer with a complete head starts with is not changed by more bytes.
proof fn lemma_start_stays(buf: Seq<u8>, more: Seq<u8>, word: Seq<u8>, end: int)
    requires
        occurs_at(buf, blank_line(), end),
        forall|k: int| 0 <= k < word.len() ==> #[trigger] word[k] != 0x0d,
    ensures
        occurs_at(buf + more, word, 0) == occurs_at(buf, word, 0),
{
    let all = buf + more;
    if word.len() <= buf.len() {
        assert(all.subrange(0, word.len() as int) =~= buf.subrange(0, word.len() as int));
    } else if occurs_at(all, word, 0) {
        assert(buf.subrange(end, end + 4)[0] == 0x0d);
        assert(all.subrange(0, word.len() as int)[end] == buf[end]);
        assert(word[end] == 0x0d);
        assert(false);
    }
}

/// A word of letters holds no carriage return.
proof fn lemma_no_return(text: &str)
    requires
        vstd::string::is_ascii(text),
        forall|k: int| 0 <= k < text@.len() ==> #[trigger] text@[k] as u8 != 0x0d,
    ensures
        forall|k: int| 0 <= k < bytes_of(text).len() ==> #[trigger] bytes_of(text)[k] != 0x0d,
{
    vstd::utf8::is_ascii_chars_encode_utf8(text@);
    assert forall|k: int| 0 <= k < bytes_of(text).len() implies #[trigger] bytes_of(text)[k]
        != 0x0d by {
        assert(text@[k] as u8 != 0x0d);
    }
}

/// A head that is complete stays as it is when more bytes come.
pub proof fn law_complete_head_stays(buf: Seq<u8>, more: Seq<u8>)
    requires
        head_of(buf) !is Incomplete,
    ensures
        head_of(buf + more) == head_of(buf),
{
    lemma_header_end_stays(buf, more);
    let end = first_at(buf, blank_line(), 0)->0;
    assert((buf + more).take(end) =~= buf.take(end));
    reveal_strlit("GET /ready");
    reveal_strlit("POST /fraud-score");
    lemma_no_return("GET /ready");
    lemma_no_return("POST /fraud-score");
    lemma_start_stays(buf, more, bytes_of("GET /ready"), end);
    lemma_start_stays(buf, more, bytes_of("POST /fraud-score"), end);
}

/// How the bytes of a request are cut into reads does not matter.
pub proof fn law_reads_can_be_joined(course: Course, one: Seq<u8>, other: Seq<u8>)
    requires
        one.len() > 0,
        other.len() > 0,
    ensures
        after_bytes(after_bytes(course, one), other) == after_bytes(course, one + other),
{
    let buffer = course.buffer + one;
    assert(buffer + other =~= course.buffer + (one + other));
    if course.head is None && head_of(buffer) !is Incomplete {
        law_complete_head_stays(buffer, other);
    }
}

/// What follows an answered request is kept, byte for byte.
pub proof fn law_pipelined_bytes_are_kept(course: Course, request: Seq<u8>, next: Seq<u8>)
    requires
        course.head is Some,
        course.buffer == request + next,
        request.len() == request_end(course.head->0),
    ensures
        after_answer(course).buffer == next,
        after_answer(course).head is None,
{
    assert(course.buffer.skip(request.len() as int) =~= next);
}

/// A scoring request that fits is scored as soon as its bytes are there, and what is scored
/// is its body.
pub proof fn law_whole_request_is_scored(head: Seq<u8>, body: Seq<u8>)
    requires
        first_at(head, blank_line(), 0) == Some(head.len() - 4),
        method_of(head) == Method::PostFraudScore,
        body_length(head.take(head.len() - 4)) == body.len(),
        head.len() + body.len() <= MAX_BUF,
    ensures
        ({
            let start = Course { buffer: Seq::empty(), head: None, closed: false };
            let course = after_bytes(start, head + body);
            &&& step_of(course) == Step::Score
            &&& course.head matches Some(found)
            &&& course.buffer.subrange(found.header_end + 4, request_end(found)) == body
        }),
{
    let start = Course { buffer: Seq::empty(), head: None, closed: false };
    assert(is_first_at(head, blank_line(), 0, head.len() - 4)) by {
        reveal(first_at);
    }
    assert(start.buffer + (head + body) =~= head + body);
    law_complete_head_stays(head, body);
    assert((head + body).subrange(head.len() as int, (head.len() + body.len()) as int) =~= body);
}

/// The body of the answer to a scored request.
pub open spec fn score_body(votes: int) -> &'static str {
    if votes == 0 {
        "{\"approved\":true,\"fraud_score\":0.0}"
    } else if votes == 1 {
        "{\"approved\":true,\"fraud_score\":0.2}"
    } else if votes == 2 {
        "{\"approved\":true,\"fraud_score\":0.4}"
    } else if votes == 3 {
        "{\"approved\":false,\"fraud_score\":0.6}"
    } else if votes == 4 {
        "{\"approved\":false,\"fraud_score\":0.8}"
    } else {
        "{\"approved\":false,\"fraud_score\":1.0}"
    }
}

/// The head of the answer to a scored request.
pub open spec fn score_head(approved: bool) -> &'static str {
    if approved {
        "HTTP/1.1 200 OK\r\nContent-Type: application/json\r\nContent-Length: 35\r\nConnection: keep-alive\r\n\r\n"
    } else {
        "HTTP/1.1 200 OK\r\nContent-Type: application/json\r\nContent-Length: 36\r\nConnection: keep-alive\r\n\r\n"
    }
}

/// An answer is a head and a body of the length that the head names, 35 or 36 bytes; below
/// three fraud votes it approves, from three on it does not.
pub proof fn law_answer_follows_votes(votes: int)
    requires
        0 <= votes,
    ensures
        score_text(votes)@ == score_head(votes < 3)@ + score_body(votes)@,
        score_body(votes)@.len() == if votes < 3 {
            35int
        } else {
            36
        },
        score_body(votes)@.subrange(0, 12) == "{\"approved\":"@,
        votes < 3 ==> score_body(votes)@.subrange(12, 17) == "true,"@,
        votes >= 3 ==> score_body(votes)@.subrange(12, 18) == "false,"@,
{
    if votes == 0 {
        lemma_answer_0();
    } else if votes == 1 {
        lemma_answer_1();
    } else if votes == 2 {
        lemma_answer_2();
    } else if votes == 3 {
        lemma_answer_3();
    } else if votes == 4 {
        lemma_answer_4();
    } else {
        lemma_answer_5();
    }
}

proof fn lemma_answer_0()
    ensures
        score_text(0)@ == score_head(true)@ + score_body(0)@,
        score_body(0)@.len() == 35,
        score_body(0)@.subrange(0, 12) == "{\"approved\":"@,
        score_body(0)@.subrange(12, 17) == "true,"@,
{
    reveal_strlit("HTTP/1.1 200 OK\r\nContent-Type: application/json\r\nContent-Length: 35\r\nConnection: keep-alive\r\n\r\n");
    reveal_strlit("{\"approved\":true,\"fraud_score\":0.0}");
    reveal_strlit("HTTP/1.1 200 OK\r\nContent-Type: application/json\r\nContent-Length: 35\r\nConnection: keep-alive\r\n\r\n{\"approved\":true,\"fraud_score\":0.0}");
    reveal_strlit("{\"approved\":");
    reveal_strlit("true,");
}

proof fn lemma_answer_1()
    ensures
        score_text(1)@ == score_head(true)@ + score_body(1)@,
        score_body(1)@.len() == 35,
        score_body(1)@.subrange(0, 12) == "{\"approved\":"@,
        score_body(1)@.subrange(12, 17) == "true,"@,
{
    reveal_strlit("HTTP/1.1 200 OK\r\nContent-Type: application/json\r\nContent-Length: 35\r\nConnection: keep-alive\r\n\r\n");
    reveal_strlit("{\"approved\":true,\"fraud_score\":0.2}");
    reveal_strlit("HTTP/1.1 200 OK\r\nContent-Type: application/json\r\nContent-Length: 35\r\nConnection: keep-alive\r\n\r\n{\"approved\":true,\"fraud_score\":0.2}");
    reveal_strlit("{\"approved\":");
    reveal_strlit("true,");
}

proof fn lemma_answer_2()
    ensures
        score_text(2)@ == score_head(true)@ + score_body(2)@,
        score_body(2)@.len() == 35,
        score_body(2)@.subrange(0, 12) == "{\"approved\":"@,
        score_body(2)@.subrange(12, 17) == "true,"@,
{
    reveal_strlit("HTTP/1.1 200 OK\r\nContent-Type: application/json\r\nContent-Length: 35\r\nConnection: keep-alive\r\n\r\n");
    reveal_strlit("{\"approved\":true,\"fraud_score\":0.4}");
    reveal_strlit("HTTP/1.1 200 OK\r\nContent-Type: application/json\r\nContent-Length: 35\r\nConnection: keep-alive\r\n\r\n{\"approved\":true,\"fraud_score\":0.4}");
    reveal_strlit("{\"approved\":");
    reveal_strlit("true,");
}

proof fn lemma_answer_3()
    ensures
        score_text(3)@ == score_head(false)@ + score_body(3)@,
        score_body(3)@.len() == 36,
        score_body(3)@.subrange(0, 12) == "{\"approved\":"@,
        score_body(3)@.subrange(12, 18) == "false,"@,
{
    reveal_strlit("HTTP/1.1 200 OK\r\nContent-Type: application/json\r\nContent-Length: 36\r\nConnection: keep-alive\r\n\r\n");
    reveal_strlit("{\"approved\":false,\"fraud_score\":0.6}");
    reveal_strlit("HTTP/1.1 200 OK\r\nContent-Type: application/json\r\nContent-Length: 36\r\nConnection: keep-alive\r\n\r\n{\"approved\":false,\"fraud_score\":0.6}");
    reveal_strlit("{\"approved\":");
    reveal_strlit("false,");
}

proof fn lemma_answer_4()
    ensures
        score_text(4)@ == score_head(false)@ + score_body(4)@,
        score_body(4)@.len() == 36,
        score_body(4)@.subrange(0, 12) == "{\"approved\":"@,
        score_body(4)@.subrange(12, 18) == "false,"@,
{
    reveal_strlit("HTTP/1.1 200 OK\r\nContent-Type: application/json\r\nContent-Length: 36\r\nConnection: keep-alive\r\n\r\n");
    reveal_strlit("{\"approved\":false,\"fraud_score\":0.8}");
    reveal_strlit("HTTP/1.1 200 OK\r\nContent-Type: application/json\r\nContent-Length: 36\r\nConnection: keep-alive\r\n\r\n{\"approved\":false,\"fraud_score\":0.8}");
    reveal_strlit("{\"approved\":");
    reveal_strlit("false,");
}

proof fn lemma_answer_5()
    ensures
        score_text(5)@ == score_head(false)@ + score_body(5)@,
        score_body(5)@.len() == 36,
        score_body(5)@.subrange(0, 12) == "{\"approved\":"@,
        score_body(5)@.subrange(12, 18) == "false,"@,
{
    reveal_strlit("HTTP/1.1 200 OK\r\nContent-Type: application/json\r\nContent-Length: 36\r\nConnection: keep-alive\r\n\r\n");
    reveal_strlit("{\"approved\":false,\"fraud_score\":1.0}");
    reveal_strlit("HTTP/1.1 200 OK\r\nContent-Type: application/json\r\nContent-Length: 36\r\nConnection: keep-alive\r\n\r\n{\"approved\":false,\"fraud_score\":1.0}");
    reveal_strlit("{\"approved\":");
    reveal_strlit("false,");
}

/// A scoring request that fits is answered by the outcome of scoring its body, with the score
/// of its votes or with the refusal of a request that cannot be read; and either way the
/// connection then waits for the next request.
pub proof fn law_scored_request_is_answered(head: Seq<u8>, body: Seq<u8>, votes: Option<int>)
    requires
        first_at(head, blank_line(), 0) == Some(head.len() - 4),
        method_of(head) == Method::PostFraudScore,
        body_length(head.take(head.len() - 4)) == body.len(),
        head.len() + body.len() <= MAX_BUF,
        match votes {
            Some(_) => request_of(body) is Ok,
            None => request_of(body) == Err::<RequestModel, VectorizeError>(
                VectorizeError::InvalidJson,
            ),
        },
    ensures
        ({
            let start = Course { buffer: Seq::empty(), head: None, closed: false };
            let course = after_bytes(start, head + body);
            &&& step_of(course) == Step::Score
            &&& course.head matches Some(found)
            &&& course.buffer.subrange(found.header_end + 4, request_end(found)) == body
            &&& request_of(body) is Ok ==> scored_bytes(votes) == bytes_of(score_text(votes->0))
            &&& request_of(body) is Err ==> scored_bytes(votes) == bytes_of(
                "HTTP/1.1 400 Bad Request\r\nContent-Length: 0\r\nConnection: keep-alive\r\n\r\n",
            )
            &&& after_answer(course) == start
            &&& step_of(after_answer(course)) == Step::Read { room: MAX_BUF }
        }),
{
    let start = Course { buffer: Seq::empty(), head: None, closed: false };
    let course = after_bytes(start, head + body);
    law_whole_request_is_scored(head, body);
    assert(start.buffer + (head + body) =~= head + body);
    law_complete_head_stays(head, body);
    assert(course.buffer.skip((head.len() + body.len()) as int) =~= Seq::empty());
}

/// `content-length:` stands in `s` at `j`, each letter in upper or in lower case.
pub open spec fn mentions_length(s: Seq<u8>, j: int) -> bool {
    let name = seq![
        0x63u8, 0x6fu8, 0x6eu8, 0x74u8, 0x65u8, 0x6eu8, 0x74u8, 0x2du8,
        0x6cu8, 0x65u8, 0x6eu8, 0x67u8, 0x74u8, 0x68u8, 0x3au8,
    ];
    &&& 0 <= j
    &&& j + 15 <= s.len()
    &&& forall|k: int|
        #![trigger name[k]]
        0 <= k < 15 ==> s[j + k] == name[k] || (0x61 <= name[k] <= 0x7a && s[j + k] == name[k]
            - 0x20)
}

proof fn lemma_mentions(s: Seq<u8>, j: int)
    ensures
        occurs_in_any_case(s, length_name(), j) <==> mentions_length(s, j),
        length_name().len() == 15,
{
    reveal_strlit("content-length:");
    vstd::utf8::is_ascii_chars_encode_utf8("content-length:"@);
    let name = seq![
        0x63u8, 0x6fu8, 0x6eu8, 0x74u8, 0x65u8, 0x6eu8, 0x74u8, 0x2du8,
        0x6cu8, 0x65u8, 0x6eu8, 0x67u8, 0x74u8, 0x68u8, 0x3au8,
    ];
    assert(length_name() =~= name);
    if occurs_in_any_case(s, length_name(), j) {
        assert forall|k: int| #![trigger name[k]] 0 <= k < 15 implies s[j + k] == name[k] || (0x61
            <= name[k] <= 0x7a && s[j + k] == name[k] - 0x20) by {
            assert(lower(s[j + k]) == lower(length_name()[k]));
        }
    }
    if mentions_length(s, j) {
        assert forall|k: int| 0 <= k < 15 implies lower(s[j + k]) == lower(
            #[trigger] length_name()[k],
        ) by {
            assert(name[k] == length_name()[k]);
        }
    }
}

proof fn lemma_after_blanks(s: Seq<u8>, i: int, n: nat)
    requires
        0 <= i,
        i + n <= s.len(),
        forall|k: int| i <= k < i + n ==> #[trigger] s[k] == 0x20,
        i + n < s.len() ==> s[i + n] != 0x20,
    ensures
        after_blanks(s, i) == i + n,
    decreases n,
{
    if n > 0 {
        lemma_after_blanks(s, i + 1, (n - 1) as nat);
    }
}

/// The length of the body is the number that stands behind `Content-Length:`, in any case and
/// behind any number of blanks. Whatever lines come before, however many and however long they
/// are, as long as none of them mentions it; and whatever comes behind that is no digit.
pub proof fn law_written_length_is_read(
    before: Seq<u8>,
    name: Seq<u8>,
    blanks: nat,
    digits: Seq<u8>,
    after: Seq<u8>,
)
    requires
        before.len() > 0 ==> before.last() == 0x0a,
        forall|j: int| !#[trigger] mentions_length(before, j),
        name.len() == 15,
        mentions_length(name, 0),
        digits.len() > 0,
        forall|k: int| 0 <= k < digits.len() ==> 0x30 <= #[trigger] digits[k] <= 0x39,
        after.len() > 0 ==> !(0x30 <= after[0] <= 0x39),
    ensures
        body_length(before + name + Seq::new(blanks, |i: int| 0x20u8) + digits + after) == decimal(
            digits,
        ),
{
    let space = Seq::new(blanks, |i: int| 0x20u8);
    let s = before + name + space + digits + after;
    let b = before.len() as int;
    let literal = seq![
        0x63u8, 0x6fu8, 0x6eu8, 0x74u8, 0x65u8, 0x6eu8, 0x74u8, 0x2du8,
        0x6cu8, 0x65u8, 0x6eu8, 0x67u8, 0x74u8, 0x68u8, 0x3au8,
    ];
    lemma_mentions(s, b);
    assert(mentions_length(s, b)) by {
        assert forall|k: int| #![trigger literal[k]] 0 <= k < 15 implies s[b + k] == literal[k] || (
        0x61 <= literal[k] <= 0x7a && s[b + k] == literal[k] - 0x20) by {
            assert(s[b + k] == name[0 + k]);
        }
    }
    assert forall|j: int| 0 <= j < b implies !#[trigger] occurs_in_any_case(
        s,
        length_name(),
        j,
    ) by {
        lemma_mentions(s, j);
        if mentions_length(s, j) {
            if j + 15 <= b {
                assert forall|k: int| #![trigger literal[k]] 0 <= k < 15 implies before[j + k]
                    == literal[k] || (0x61 <= literal[k] <= 0x7a && before[j + k] == literal[k]
                    - 0x20) by {
                    assert(s[j + k] == before[j + k]);
                }
                assert(mentions_length(before, j));
            } else {
                let k = b - 1 - j;
                assert(s[j + k] == 0x0a);
                assert(literal[k] >= 0x2d);
            }
        }
    }
    assert(is_first_in_any_case(s, length_name(), b));
    lemma_body_length(s, b);
    let at = b + 15 + blanks;
    assert(s[at] == digits[0]);
    lemma_after_blanks(s, b + 15, blanks);
    let rest = s.skip(at);
    assert(rest =~= digits + after);
    let n = digits.len() as int;
    assert(rest.take(n) =~= digits);
    lemma_digit_count(rest, n);
    assert(leading_digits(rest) =~= digits);
}

/// A head that does not mention the length of the body has none.
pub proof fn law_no_length_is_none(headers: Seq<u8>)
    requires
        forall|j: int| !#[trigger] mentions_length(headers, j),
    ensures
        body_length(headers) == 0,
{
    assert forall|i: int| !is_first_in_any_case(headers, length_name(), i) by {
        lemma_mentions(headers, i);
    }
}

/// A line ends at `j`, and a blank line follows.
pub open spec fn is_blank_line(s: Seq<u8>, j: int) -> bool {
    s[j] == 0x0d && s[j + 1] == 0x0a && s[j + 2] == 0x0d && s[j + 3] == 0x0a
}

/// The head of a request is what comes before the first blank line. It asks for readiness if the
/// request starts with `GET /ready`, for a score if it starts with `POST /fraud-score`, and for
/// nothing that is known otherwise.
pub proof fn law_head_ends_at_the_blank_line(buf: Seq<u8>, end: int)
    requires
        0 <= end <= usize::MAX,
        end + 4 <= buf.len(),
        is_blank_line(buf, end),
        forall|j: int| 0 <= j < end ==> !#[trigger] is_blank_line(buf, j),
    ensures
        head_of(buf) == if body_length(buf.take(end)) > usize::MAX {
            Head::TooLarge
        } else {
            Head::Complete(
                RequestHead {
                    method: if bytes_of("GET /ready").is_prefix_of(buf) {
                        Method::GetReady
                    } else if bytes_of("POST /fraud-score").is_prefix_of(buf) {
                        Method::PostFraudScore
                    } else {
                        Method::Unknown
                    },
                    content_length: body_length(buf.take(end)) as usize,
                    header_end: end as usize,
                },
            )
        },
{
    let blank = seq![0x0du8, 0x0au8, 0x0du8, 0x0au8];
    assert(buf.subrange(end, end + 4) =~= blank);
    assert forall|j: int| 0 <= j < end implies #[trigger] buf.subrange(j, j + 4) != blank by {
        assert(!is_blank_line(buf, j));
        let there = buf.subrange(j, j + 4);
        if there == blank {
            assert(there[0] == 0x0d && there[1] == 0x0a && there[2] == 0x0d && there[3] == 0x0a);
        }
    }
    law_first_place_is_found(buf, blank, 0, end);
    lemma_starts_with(buf, bytes_of("GET /ready"));
    lemma_starts_with(buf, bytes_of("POST /fraud-score"));
}

proof fn lemma_starts_with(buf: Seq<u8>, word: Seq<u8>)
    ensures
        occurs_at(buf, word, 0) <==> word.is_prefix_of(buf),
{
}

/// Without a blank line the head is not complete.
pub proof fn law_head_needs_a_blank_line(buf: Seq<u8>)
    requires
        forall|j: int| 0 <= j && j + 4 <= buf.len() ==> !#[trigger] is_blank_line(buf, j),
    ensures
        head_of(buf) == Head::Incomplete,
{
    assert forall|j: int| 0 <= j implies !#[trigger] occurs_at(buf, blank_line(), j) by {
        if j + 4 <= buf.len() {
            assert(!is_blank_line(buf, j));
            let there = buf.subrange(j, j + 4);
            if there == blank_line() {
                assert(there[0] == 0x0d && there[1] == 0x0a && there[2] == 0x0d && there[3]
                    == 0x0a);
            }
        }
    }
    lemma_no_first_at(buf, blank_line(), 0);
}

/// A connection holds up to 2048 bytes. It reads until the request at its start is there, closes
/// where there is no room for it, and then does what the request asks for.
pub proof fn law_connection_waits_for_its_request(course: Course)
    ensures
        course.closed ==> step_of(course) == Step::Close,
        !course.closed && course.head is None ==> step_of(course) == if course.buffer.len() < 2048 {
            Step::Read { room: (2048 - course.buffer.len()) as usize }
        } else {
            Step::Close
        },
        !course.closed ==> (course.head matches Some(head) ==> {
            let size = head.header_end + 4 + head.content_length;
            step_of(course) == if size <= course.buffer.len() {
                match head.method {
                    Method::GetReady => Step::AnswerReady,
                    Method::PostFraudScore => Step::Score,
                    Method::Unknown => Step::NotFound,
                }
            } else if size <= 2048 {
                Step::Read { room: (2048 - course.buffer.len()) as usize }
            } else {
                Step::Close
            }
        }),
{
}

/// Bytes that come are put behind those that are held; until the head is complete it is looked
/// for in all of them. No bytes close the connection, and so does a body that cannot be counted.
pub proof fn law_bytes_are_put_behind(course: Course, bytes: Seq<u8>)
    ensures
        bytes.len() == 0 ==> after_bytes(course, bytes).closed && after_bytes(course, bytes).buffer
            == course.buffer && after_bytes(course, bytes).head == course.head,
        bytes.len() > 0 ==> {
            let next = after_bytes(course, bytes);
            &&& next.buffer == course.buffer + bytes
            &&& course.head is Some ==> next.head == course.head && next.closed == course.closed
            &&& course.head is None ==> match head_of(course.buffer + bytes) {
                Head::Incomplete => next.head is None && next.closed == course.closed,
                Head::Complete(head) => next.head == Some(head) && next.closed == course.closed,
                Head::TooLarge => next.head is None && next.closed,
            }
        },
{
}

/// A scoring request whose head says how long its body is, in a `Content-Length` line behind any
/// other lines, is scored once it is there: what is scored is its body, byte for byte, and after
/// the answer the connection waits for the next request with nothing left over.
#[verifier::spinoff_prover]
#[verifier::rlimit(40)]
pub proof fn law_written_request_is_scored(
    before: Seq<u8>,
    name: Seq<u8>,
    blanks: nat,
    digits: Seq<u8>,
    after: Seq<u8>,
    body: Seq<u8>,
    request: Seq<u8>,
)
    requires
        bytes_of("POST /fraud-score").is_prefix_of(before),
        before.last() == 0x0a,
        forall|j: int| !#[trigger] mentions_length(before, j),
        name.len() == 15,
        mentions_length(name, 0),
        digits.len() > 0,
        forall|k: int| 0 <= k < digits.len() ==> 0x30 <= #[trigger] digits[k] <= 0x39,
        after.len() > 0 ==> !(0x30 <= after[0] <= 0x39),
        decimal(digits) == body.len(),
        request == before + name + Seq::new(blanks, |i: int| 0x20u8) + digits + after
            + seq![0x0du8, 0x0au8, 0x0du8, 0x0au8] + body,
        request.len() <= 2048,
        forall|j: int|
            0 <= j < request.len() - body.len() - 4 ==> !#[trigger] is_blank_line(request, j),
    ensures
        ({
            let start = Course { buffer: Seq::empty(), head: None, closed: false };
            let course = after_bytes(start, request);
            &&& step_of(course) == Step::Score
            &&& course.head matches Some(found)
            &&& course.buffer.subrange(
                found.header_end + 4,
                found.header_end + 4 + found.content_length,
            ) == body
            &&& after_answer(course) == start
            &&& step_of(after_answer(course)) == Step::Read { room: 2048 }
        }),
{
    let head = before + name + Seq::new(blanks, |i: int| 0x20u8) + digits + after;
    let start = Course { buffer: Seq::empty(), head: None, closed: false };
    let word = bytes_of("POST /fraud-score");
    let n = head.len() as int;
    assert(before.len() > 0) by {
        reveal_strlit("POST /fraud-score");
        vstd::utf8::is_ascii_chars_encode_utf8("POST /fraud-score"@);
    }
    law_written_length_is_read(before, name, blanks, digits, after);
    assert(request.take(n) =~= head);
    assert(is_blank_line(request, n));
    law_head_ends_at_the_blank_line(request, n);
    assert(start.buffer + request =~= request);
    assert(word.is_prefix_of(request)) by {
        assert(request.subrange(0, word.len() as int) =~= before.subrange(0, word.len() as int));
    }
    assert(!bytes_of("GET /ready").is_prefix_of(request)) by {
        let other = bytes_of("GET /ready");
        reveal_strlit("POST /fraud-score");
        reveal_strlit("GET /ready");
        vstd::utf8::is_ascii_chars_encode_utf8("POST /fraud-score"@);
        vstd::utf8::is_ascii_chars_encode_utf8("GET /ready"@);
        assert(word[0] == 0x50 && other[0] == 0x47);
        assert(request.subrange(0, word.len() as int)[0] == request[0]);
        if other.is_prefix_of(request) {
            assert(request.subrange(0, other.len() as int)[0] == request[0]);
        }
    }
    assert(request.subrange(n + 4, n + 4 + body.len()) =~= body);
    assert(request.skip(n + 4 + body.len()) =~= Seq::empty());
}

/// An answered request is taken off the front, and nothing else changes.
pub proof fn law_answered_request_is_taken_off(course: Course, head: RequestHead)
    requires
        course.head == Some(head),
    ensures
        after_answer(course).buffer == course.buffer.skip(
            head.header_end + 4 + head.content_length,
        ),
        after_answer(course).head is None,
        after_answer(course).closed == course.closed,
{
}

/// The answer to a scored request spells out the share of fraud votes in fifths, from 0.0 to 1.0,
/// approves it below three votes, and names the length of its body; five votes are the most.
pub proof fn law_answer_spells_the_share(votes: int)
    requires
        0 <= votes,
    ensures
        score_text(votes)@ == "HTTP/1.1 200 OK\r\nContent-Type: application/json\r\nContent-Length: "@
            + (if votes < 3 {
            "35"
        } else {
            "36"
        })@ + "\r\nConnection: keep-alive\r\n\r\n{\"approved\":"@ + (if votes < 3 {
            "true"
        } else {
            "false"
        })@ + ",\"fraud_score\":"@ + (if votes >= 5 {
            seq!['1', '.', '0', '}']
        } else {
            seq![
                '0',
                '.',
                if votes == 0 {
                    '0'
                } else if votes == 1 {
                    '2'
                } else if votes == 2 {
                    '4'
                } else if votes == 3 {
                    '6'
                } else {
                    '8'
                },
                '}',
            ]
        }),
{
    if votes == 0 {
        lemma_answer_text_0();
    } else if votes == 1 {
        lemma_answer_text_1();
    } else if votes == 2 {
        lemma_answer_text_2();
    } else if votes == 3 {
        lemma_answer_text_3();
    } else if votes == 4 {
        lemma_answer_text_4();
    } else {
        lemma_answer_text_5();
    }
}

/// A request that was scored is answered by its votes, and one that could not be read by the
/// refusal.
pub proof fn law_outcome_decides_the_answer(votes: int)
    requires
        0 <= votes,
    ensures
        scored_bytes(Some(votes)) == bytes_of(score_text(votes)),
        scored_bytes(None) == bytes_of(
            "HTTP/1.1 400 Bad Request\r\nContent-Length: 0\r\nConnection: keep-alive\r\n\r\n",
        ),
{
}

proof fn lemma_answer_text_0()
    ensures
        score_text(0)@ == "HTTP/1.1 200 OK\r\nContent-Type: application/json\r\nContent-Length: "@
            + "35"@ + "\r\nConnection: keep-alive\r\n\r\n{\"approved\":"@ + "true"@
            + ",\"fraud_score\":"@ + seq!['0', '.', '0', '}'],
{
    reveal_strlit(
        "HTTP/1.1 200 OK\r\nContent-Type: application/json\r\nContent-Length: 35\r\nConnection: keep-alive\r\n\r\n{\"approved\":true,\"fraud_score\":0.0}",
    );
    reveal_strlit("HTTP/1.1 200 OK\r\nContent-Type: application/json\r\nContent-Length: ");
    reveal_strlit("35");
    reveal_strlit("\r\nConnection: keep-alive\r\n\r\n{\"approved\":");
    reveal_strlit("true");
    reveal_strlit(",\"fraud_score\":");
}

proof fn lemma_answer_text_1()
    ensures
        score_text(1)@ == "HTTP/1.1 200 OK\r\nContent-Type: application/json\r\nContent-Length: "@
            + "35"@ + "\r\nConnection: keep-alive\r\n\r\n{\"approved\":"@ + "true"@
            + ",\"fraud_score\":"@ + seq!['0', '.', '2', '}'],
{
    reveal_strlit(
        "HTTP/1.1 200 OK\r\nContent-Type: application/json\r\nContent-Length: 35\r\nConnection: keep-alive\r\n\r\n{\"approved\":true,\"fraud_score\":0.2}",
    );
    reveal_strlit("HTTP/1.1 200 OK\r\nContent-Type: application/json\r\nContent-Length: ");
    reveal_strlit("35");
    reveal_strlit("\r\nConnection: keep-alive\r\n\r\n{\"approved\":");
    reveal_strlit("true");
    reveal_strlit(",\"fraud_score\":");
}

proof fn lemma_answer_text_2()
    ensures
        score_text(2)@ == "HTTP/1.1 200 OK\r\nContent-Type: application/json\r\nContent-Length: "@
            + "35"@ + "\r\nConnection: keep-alive\r\n\r\n{\"approved\":"@ + "true"@
            + ",\"fraud_score\":"@ + seq!['0', '.', '4', '}'],
{
    reveal_strlit(
        "HTTP/1.1 200 OK\r\nContent-Type: application/json\r\nContent-Length: 35\r\nConnection: keep-alive\r\n\r\n{\"approved\":true,\"fraud_score\":0.4}",
    );
    reveal_strlit("HTTP/1.1 200 OK\r\nContent-Type: application/json\r\nContent-Length: ");
    reveal_strlit("35");
    reveal_strlit("\r\nConnection: keep-alive\r\n\r\n{\"approved\":");
    reveal_strlit("true");
    reveal_strlit(",\"fraud_score\":");
}

proof fn lemma_answer_text_3()
    ensures
        score_text(3)@ == "HTTP/1.1 200 OK\r\nContent-Type: application/json\r\nContent-Length: "@
            + "36"@ + "\r\nConnection: keep-alive\r\n\r\n{\"approved\":"@ + "false"@
            + ",\"fraud_score\":"@ + seq!['0', '.', '6', '}'],
{
    reveal_strlit(
        "HTTP/1.1 200 OK\r\nContent-Type: application/json\r\nContent-Length: 36\r\nConnection: keep-alive\r\n\r\n{\"approved\":false,\"fraud_score\":0.6}",
    );
    reveal_strlit("HTTP/1.1 200 OK\r\nContent-Type: application/json\r\nContent-Length: ");
    reveal_strlit("36");
    reveal_strlit("\r\nConnection: keep-alive\r\n\r\n{\"approved\":");
    reveal_strlit("false");
    reveal_strlit(",\"fraud_score\":");
}

proof fn lemma_answer_text_4()
    ensures
        score_text(4)@ == "HTTP/1.1 200 OK\r\nContent-Type: application/json\r\nContent-Length: "@
            + "36"@ + "\r\nConnection: keep-alive\r\n\r\n{\"approved\":"@ + "false"@
            + ",\"fraud_score\":"@ + seq!['0', '.', '8', '}'],
{
    reveal_strlit(
        "HTTP/1.1 200 OK\r\nContent-Type: application/json\r\nContent-Length: 36\r\nConnection: keep-alive\r\n\r\n{\"approved\":false,\"fraud_score\":0.8}",
    );
    reveal_strlit("HTTP/1.1 200 OK\r\nContent-Type: application/json\r\nContent-Length: ");
    reveal_strlit("36");
    reveal_strlit("\r\nConnection: keep-alive\r\n\r\n{\"approved\":");
    reveal_strlit("false");
    reveal_strlit(",\"fraud_score\":");
}

proof fn lemma_answer_text_5()
    ensures
        score_text(5)@ == "HTTP/1.1 200 OK\r\nContent-Type: application/json\r\nContent-Length: "@
            + "36"@ + "\r\nConnection: keep-alive\r\n\r\n{\"approved\":"@ + "false"@
            + ",\"fraud_score\":"@ + seq!['1', '.', '0', '}'],
{
    reveal_strlit(
        "HTTP/1.1 200 OK\r\nContent-Type: application/json\r\nContent-Length: 36\r\nConnection: keep-alive\r\n\r\n{\"approved\":false,\"fraud_score\":1.0}",
    );
    reveal_strlit("HTTP/1.1 200 OK\r\nContent-Type: application/json\r\nContent-Length: ");
    reveal_strlit("36");
    reveal_strlit("\r\nConnection: keep-alive\r\n\r\n{\"approved\":");
    reveal_strlit("false");
    reveal_strlit(",\"fraud_score\":");
}

/// The first mention of `content-length:` counts, wherever it stands and whatever comes behind it.
/// Behind any number of blanks its number is as many digits as follow one another, and 0 where
/// there is none.
pub proof fn law_first_mention_is_read(headers: Seq<u8>, at: int, blanks: nat, count: nat)
    requires
        mentions_length(headers, at),
        forall|j: int| 0 <= j < at ==> !#[trigger] mentions_length(headers, j),
        at + 15 + blanks + count <= headers.len(),
        forall|k: int| at + 15 <= k < at + 15 + blanks ==> #[trigger] headers[k] == 0x20,
        forall|k: int|
            at + 15 + blanks <= k < at + 15 + blanks + count ==> 0x30 <= #[trigger] headers[k]
                <= 0x39,
        at + 15 + blanks < headers.len() ==> headers[at + 15 + blanks] != 0x20,
        at + 15 + blanks + count < headers.len() ==> headers[at + 15 + blanks + count] < 0x30
            || headers[at + 15 + blanks + count] > 0x39,
    ensures
        body_length(headers) == decimal(
            headers.subrange(at + 15 + blanks, at + 15 + blanks + count),
        ),
{
    let from = at + 15 + blanks;
    lemma_mentions(headers, at);
    assert forall|j: int| 0 <= j < at implies !#[trigger] occurs_in_any_case(
        headers,
        length_name(),
        j,
    ) by {
        lemma_mentions(headers, j);
    }
    assert(is_first_in_any_case(headers, length_name(), at));
    lemma_body_length(headers, at);
    lemma_after_blanks(headers, at + 15, blanks);
    let digits = headers.subrange(from, from + count);
    let more = headers.skip(from + count);
    assert forall|k: int| 0 <= k < digits.len() implies 48 <= #[trigger] digits[k] <= 57 by {
        assert(digits[k] == headers[from + k]);
    }
    assert(headers.skip(from) =~= digits + more);
    law_digits_end_at_the_first_other_byte(digits, more);
}

/// The answers without a body: a status line, the length 0, and whether the connection stays open,
/// with a blank line behind them. Readiness is a 200, and its lack a 503; a request that cannot be
/// read is a 400, after which the connection goes on. A request for anything else is a 404, and
/// having no worker a 503; both close it.
pub proof fn law_answers_without_a_body(ready: bool)
    ensures
        ready_text(ready)@ == "HTTP/1.1 "@ + (if ready {
            "200 OK"
        } else {
            "503 Service Unavailable"
        })@ + "\r\nContent-Length: 0\r\nConnection: keep-alive\r\n\r\n"@,
        health_text(ready)@ == "HTTP/1.1 "@ + (if ready {
            "200 OK"
        } else {
            "503 Service Unavailable"
        })@ + "\r\nContent-Length: 0\r\n\r\n"@,
        refusal_text()@ == "HTTP/1.1 "@ + "400 Bad Request"@
            + "\r\nContent-Length: 0\r\nConnection: keep-alive\r\n\r\n"@,
        missing_text()@ == "HTTP/1.1 "@ + "404 Not Found"@
            + "\r\nContent-Length: 0\r\nConnection: close\r\n\r\n"@,
        unavailable_text()@ == "HTTP/1.1 "@ + "503 Service Unavailable"@
            + "\r\nContent-Length: 0\r\nConnection: close\r\n\r\n"@,
        scored_bytes(None) == bytes_of(refusal_text()),
{
    lemma_ready_text();
    lemma_unready_text();
    lemma_healthy_text();
    lemma_unhealthy_text();
    lemma_refusal_text();
    lemma_missing_text();
    lemma_unavailable_text();
}

proof fn lemma_ready_text()
    ensures
        ready_text(true)@ == "HTTP/1.1 "@ + "200 OK"@ + "\r\nContent-Length: 0\r\nConnection: keep-alive\r\n\r\n"@,
{
    reveal_strlit("HTTP/1.1 200 OK\r\nContent-Length: 0\r\nConnection: keep-alive\r\n\r\n");
    reveal_strlit("HTTP/1.1 ");
    reveal_strlit("200 OK");
    reveal_strlit("\r\nContent-Length: 0\r\nConnection: keep-alive\r\n\r\n");
}

proof fn lemma_unready_text()
    ensures
        ready_text(false)@ == "HTTP/1.1 "@ + "503 Service Unavailable"@ + "\r\nContent-Length: 0\r\nConnection: keep-alive\r\n\r\n"@,
{
    reveal_strlit(
        "HTTP/1.1 503 Service Unavailable\r\nContent-Length: 0\r\nConnection: keep-alive\r\n\r\n",
    );
    reveal_strlit("HTTP/1.1 ");
    reveal_strlit("503 Service Unavailable");
    reveal_strlit("\r\nContent-Length: 0\r\nConnection: keep-alive\r\n\r\n");
}

proof fn lemma_healthy_text()
    ensures
        health_text(true)@ == "HTTP/1.1 "@ + "200 OK"@ + "\r\nContent-Length: 0\r\n\r\n"@,
{
    reveal_strlit("HTTP/1.1 200 OK\r\nContent-Length: 0\r\n\r\n");
    reveal_strlit("HTTP/1.1 ");
    reveal_strlit("200 OK");
    reveal_strlit("\r\nContent-Length: 0\r\n\r\n");
}

proof fn lemma_unhealthy_text()
    ensures
        health_text(false)@ == "HTTP/1.1 "@ + "503 Service Unavailable"@ + "\r\nContent-Length: 0\r\n\r\n"@,
{
    reveal_strlit("HTTP/1.1 503 Service Unavailable\r\nContent-Length: 0\r\n\r\n");
    reveal_strlit("HTTP/1.1 ");
    reveal_strlit("503 Service Unavailable");
    reveal_strlit("\r\nContent-Length: 0\r\n\r\n");
}

proof fn lemma_refusal_text()
    ensures
        refusal_text()@ == "HTTP/1.1 "@ + "400 Bad Request"@ + "\r\nContent-Length: 0\r\nConnection: keep-alive\r\n\r\n"@,
{
    reveal_strlit(
        "HTTP/1.1 400 Bad Request\r\nContent-Length: 0\r\nConnection: keep-alive\r\n\r\n",
    );
    reveal_strlit("HTTP/1.1 ");
    reveal_strlit("400 Bad Request");
    reveal_strlit("\r\nContent-Length: 0\r\nConnection: keep-alive\r\n\r\n");
}

proof fn lemma_missing_text()
    ensures
        missing_text()@ == "HTTP/1.1 "@ + "404 Not Found"@ + "\r\nContent-Length: 0\r\nConnection: close\r\n\r\n"@,
{
    reveal_strlit(
        "HTTP/1.1 404 Not Found\r\nContent-Length: 0\r\nConnection: close\r\n\r\n",
    );
    reveal_strlit("HTTP/1.1 ");
    reveal_strlit("404 Not Found");
    reveal_strlit("\r\nContent-Length: 0\r\nConnection: close\r\n\r\n");
}

proof fn lemma_unavailable_text()
    ensures
        unavailable_text()@ == "HTTP/1.1 "@ + "503 Service Unavailable"@ + "\r\nContent-Length: 0\r\nConnection: close\r\n\r\n"@,
{
    reveal_strlit(
        "HTTP/1.1 503 Service Unavailable\r\nContent-Length: 0\r\nConnection: close\r\n\r\n",
    );
    reveal_strlit("HTTP/1.1 ");
    reveal_strlit("503 Service Unavailable");
    reveal_strlit("\r\nContent-Length: 0\r\nConnection: close\r\n\r\n");
}

} // verus!
