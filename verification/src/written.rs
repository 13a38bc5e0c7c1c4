//! A scoring request as its sender writes it, and that both readings of it agree.

use vstd::prelude::*;
use vstd::string::*;
use vstd::utf8::{encode_utf8, encode_utf8_decode_utf8, valid_utf8};

use crate::calendar::{
    day_of, lemma_minute_bounds, lemma_short_decimal, minute_of, parts_of, weekday_of,
};
use crate::fields::{
    all_marks, bool_text, closing, colon, ending, is_colon, is_field, is_list, lemma_array_field,
    lemma_bool_field, lemma_colon, lemma_field, lemma_gap, lemma_literal, lemma_marks,
    lemma_marks_joined, lemma_marks_no_quote, lemma_number_field, lemma_string_field,
    lemma_word_at_value, list_between, no_bracket, opening, Decimal,
};
use crate::quoted::{
    blank, comma, from_piece, gap, is_word, joined, law_listed_name_is_found, lemma_name_found,
    lemma_piece_quote, list_close, list_open, list_text, no_quote, no_quotes, quoted, stands_alone,
};
use crate::request::{
    bytes_of, contains_quoted, customer_fields, last_fields, law_number_is_read_as_written,
    lemma_request_of, merchant_fields, number_field, number_of, pow10, request_of, saturated,
    sections_of, string_field, terminal_fields, transaction_fields, value_at, LastFields, Number,
    RequestModel, TerminalFields, TransactionFields,
};
use crate::text::{decimal, first_at, is_digit, occurs_at};
use crate::vector::{
    has_utc_times, is_known, is_utc_text, seconds_between, utc_facts, utc_timestamp, weekday_named,
    weekday_number, VectorizeError,
};

verus! {

/// A scoring request as its sender writes it, where nothing in its texts needs to be escaped.
pub ghost struct WrittenRequest {
    pub id: Seq<u8>,
    pub amount: Decimal,
    pub installments: Decimal,
    pub requested_at: Seq<u8>,
    pub customer_avg_amount: Decimal,
    pub tx_count_24h: Decimal,
    pub known_merchants: Seq<Seq<u8>>,
    pub merchant_id: Seq<u8>,
    pub mcc: Seq<u8>,
    pub merchant_avg_amount: Decimal,
    pub is_online: bool,
    pub card_present: bool,
    pub km_from_home: Decimal,
    /// When and how far away the last transaction was, if there is one.
    pub last: Option<(Seq<u8>, Decimal)>,
    /// The white space around braces, colons and commas, in the order in which it stands; none
    /// at the places behind the last that is given.
    pub gaps: Seq<Seq<u8>>,
    /// The white space within the list of the known merchants: behind the opening bracket, in
    /// front of the closing bracket, and around the commas.
    pub known_gaps: Seq<Seq<u8>>,
}

/// The text is the name of a section.
pub open spec fn is_section_name(text: Seq<u8>) -> bool {
    ||| text == bytes_of("transaction")
    ||| text == bytes_of("customer")
    ||| text == bytes_of("merchant")
    ||| text == bytes_of("terminal")
    ||| text == bytes_of("last_transaction")
}

/// The piece that holds a number: a colon, the number, and what follows it.
pub open spec fn number_piece(between: Seq<u8>, number: Decimal, more: Seq<u8>) -> Seq<u8> {
    between + (number.text() + more)
}

/// The piece that holds a truth value: a colon, the value, and what follows it.
pub open spec fn bool_piece(between: Seq<u8>, value: bool, more: Seq<u8>) -> Seq<u8> {
    between + (bool_text(value) + more)
}

impl WrittenRequest {
    /// The pieces between the quotes up to the known merchants.
    #[verifier::opaque]
    pub open spec fn head(self) -> Seq<Seq<u8>> {
        let g = self.gaps;
        seq![
            gap(g, 0) + opening(g, 1),
            bytes_of("id"),
            colon(g, 2),
            self.id,
            comma(g, 4),
            bytes_of("transaction"),
            colon(g, 6) + opening(g, 8),
            bytes_of("amount"),
            number_piece(colon(g, 9), self.amount, comma(g, 11)),
            bytes_of("installments"),
            number_piece(colon(g, 13), self.installments, comma(g, 15)),
            bytes_of("requested_at"),
            colon(g, 17),
            self.requested_at,
            closing(g, 19),
            bytes_of("customer"),
            colon(g, 22) + opening(g, 24),
            bytes_of("avg_amount"),
            number_piece(colon(g, 25), self.customer_avg_amount, comma(g, 27)),
            bytes_of("tx_count_24h"),
            number_piece(colon(g, 29), self.tx_count_24h, comma(g, 31)),
            bytes_of("known_merchants"),
        ]
    }

    /// The pieces of the known merchants.
    pub open spec fn known(self) -> Seq<Seq<u8>> {
        list_between(
            self.known_merchants,
            self.known_gaps,
            colon(self.gaps, 33),
            closing(self.gaps, 35),
        )
    }

    /// The pieces from the merchant up to the last transaction.
    #[verifier::opaque]
    pub open spec fn tail(self) -> Seq<Seq<u8>> {
        let g = self.gaps;
        seq![
            bytes_of("merchant"),
            colon(g, 38) + opening(g, 40),
            bytes_of("id"),
            colon(g, 41),
            self.merchant_id,
            comma(g, 43),
            bytes_of("mcc"),
            colon(g, 45),
            self.mcc,
            comma(g, 47),
            bytes_of("avg_amount"),
            number_piece(colon(g, 49), self.merchant_avg_amount, closing(g, 51)),
            bytes_of("terminal"),
            colon(g, 54) + opening(g, 56),
            bytes_of("is_online"),
            bool_piece(colon(g, 57), self.is_online, comma(g, 59)),
            bytes_of("card_present"),
            bool_piece(colon(g, 61), self.card_present, comma(g, 63)),
            bytes_of("km_from_home"),
            number_piece(colon(g, 65), self.km_from_home, closing(g, 67)),
            bytes_of("last_transaction"),
        ]
    }

    /// What ends a request without a last transaction.
    pub open spec fn null_end(self) -> Seq<u8> {
        bytes_of("null") + (gap(self.gaps, 72) + seq![0x7du8] + gap(self.gaps, 73))
    }

    /// The pieces of the last transaction.
    pub open spec fn end(self) -> Seq<Seq<u8>> {
        let g = self.gaps;
        match self.last {
            Some((timestamp, km_from_current)) => seq![
                colon(g, 70) + opening(g, 72),
                bytes_of("timestamp"),
                colon(g, 73),
                timestamp,
                comma(g, 75),
                bytes_of("km_from_current"),
                number_piece(colon(g, 77), km_from_current, ending(g, 79)),
            ],
            None => seq![colon(g, 70) + self.null_end()],
        }
    }

    /// All pieces between the quotes.
    #[verifier::opaque]
    pub open spec fn pieces(self) -> Seq<Seq<u8>> {
        self.head() + self.known() + self.tail() + self.end()
    }

    /// The JSON text, with its white space:
    /// `{"id":..,"transaction":{..},"customer":{..},"merchant":{..},"terminal":{..},"last_transaction":..}`.
    pub open spec fn text(self) -> Seq<u8> {
        joined(self.pieces())
    }

    /// The texts hold no quotes, the timestamps a minute; the merchant has a name, and its
    /// category code is text. No text is the name of a field that is looked for across it.
    pub open spec fn wf(self) -> bool {
        &&& blank(self.gaps)
        &&& blank(self.known_gaps)
        &&& self.amount.plain()
        &&& self.installments.plain()
        &&& self.customer_avg_amount.plain()
        &&& self.tx_count_24h.plain()
        &&& self.merchant_avg_amount.plain()
        &&& self.km_from_home.plain()
        &&& no_quote(self.id)
        &&& !is_section_name(self.id)
        &&& no_quote(self.requested_at)
        &&& parts_of(self.requested_at) is Some
        &&& forall|k: int|
            0 <= k < self.known_merchants.len() ==> {
                let name = #[trigger] self.known_merchants[k];
                no_quote(name) && no_bracket(name) && !is_section_name(name)
            }
        &&& self.merchant_id.len() > 0
        &&& no_quote(self.merchant_id)
        &&& !is_section_name(self.merchant_id)
        &&& self.merchant_id != bytes_of("mcc")
        &&& self.merchant_id != bytes_of("avg_amount")
        &&& no_quote(self.mcc)
        &&& valid_utf8(self.mcc)
        &&& !is_section_name(self.mcc)
        &&& self.mcc != bytes_of("avg_amount")
        &&& self.last matches Some((timestamp, km_from_current)) ==> {
            &&& no_quote(timestamp)
            &&& parts_of(timestamp) is Some
            &&& km_from_current.plain()
        }
    }

    /// What the request says.
    pub open spec fn model(self) -> RequestModel {
        let parts = parts_of(self.requested_at)->0;
        RequestModel {
            transaction: TransactionFields {
                amount: self.amount.number(),
                installments: self.installments.number(),
                requested_minutes: minute_of(parts) as i64,
                hour: parts.hour,
                weekday: weekday_of(day_of(parts)) as u32,
            },
            customer_avg_amount: self.customer_avg_amount.number(),
            tx_count_24h: self.tx_count_24h.number(),
            known_merchant: contains_quoted(
                list_text(self.known_merchants, self.known_gaps),
                self.merchant_id,
            ),
            mcc: self.mcc,
            merchant_avg_amount: self.merchant_avg_amount.number(),
            terminal: TerminalFields {
                is_online: self.is_online,
                card_present: self.card_present,
                km_from_home: self.km_from_home.number(),
            },
            last: match self.last {
                Some((timestamp, km_from_current)) => Some(
                    LastFields {
                        minutes: saturated(minute_of(parts) - minute_of(parts_of(timestamp)->0)),
                        km_from_current: km_from_current.number(),
                    },
                ),
                None => None,
            },
        }
    }
}

/// `key` is `name` between quotes, and `name` is made of letters and the like: it has the
/// given length and first letter, and holds neither quote nor colon.
spec fn is_key(name: &str, key: &str, len: int, first: u8) -> bool {
    &&& bytes_of(key) == quoted(bytes_of(name))
    &&& bytes_of(name).len() == len
    &&& len > 0
    &&& bytes_of(name)[0] == first
    &&& 0x61 <= first <= 0x7a
    &&& no_quote(bytes_of(name))
    &&& forall|k: int| 0 <= k < len ==> #[trigger] bytes_of(name)[k] != 0x3a
}

proof fn lemma_key(name: &str, key: &str)
    requires
        vstd::utf8::is_ascii_chars(name@),
        name@.len() > 0,
        'a' <= name@[0] <= 'z',
        key@ =~= seq!['"'] + name@ + seq!['"'],
        forall|k: int| 0 <= k < name@.len() ==> #[trigger] name@[k] != '"' && name@[k] != ':',
    ensures
        is_key(name, key, name@.len() as int, name@[0] as u8),
{
    lemma_literal(name);
    lemma_literal(key);
    assert(bytes_of(key) =~= quoted(bytes_of(name)));
}

/// The names of the sections.
proof fn lemma_section_keys()
    ensures
        is_key("transaction", "\"transaction\"", 11, 0x74),
        is_key("customer", "\"customer\"", 8, 0x63),
        is_key("merchant", "\"merchant\"", 8, 0x6d),
        is_key("terminal", "\"terminal\"", 8, 0x74),
        is_key("last_transaction", "\"last_transaction\"", 16, 0x6c),
{
    assert(is_key("transaction", "\"transaction\"", 11, 0x74)) by {
        reveal_strlit("transaction");
        reveal_strlit("\"transaction\"");
        lemma_key("transaction", "\"transaction\"");
    }
    assert(is_key("customer", "\"customer\"", 8, 0x63)) by {
        reveal_strlit("customer");
        reveal_strlit("\"customer\"");
        lemma_key("customer", "\"customer\"");
    }
    assert(is_key("merchant", "\"merchant\"", 8, 0x6d)) by {
        reveal_strlit("merchant");
        reveal_strlit("\"merchant\"");
        lemma_key("merchant", "\"merchant\"");
    }
    assert(is_key("terminal", "\"terminal\"", 8, 0x74)) by {
        reveal_strlit("terminal");
        reveal_strlit("\"terminal\"");
        lemma_key("terminal", "\"terminal\"");
    }
    assert(is_key("last_transaction", "\"last_transaction\"", 16, 0x6c)) by {
        reveal_strlit("last_transaction");
        reveal_strlit("\"last_transaction\"");
        lemma_key("last_transaction", "\"last_transaction\"");
    }
}

/// The names of fields of the request, the transaction and the customer.
proof fn lemma_head_keys()
    ensures
        is_key("id", "\"id\"", 2, 0x69),
        is_key("amount", "\"amount\"", 6, 0x61),
        is_key("installments", "\"installments\"", 12, 0x69),
        is_key("requested_at", "\"requested_at\"", 12, 0x72),
        is_key("avg_amount", "\"avg_amount\"", 10, 0x61),
        is_key("tx_count_24h", "\"tx_count_24h\"", 12, 0x74),
        is_key("known_merchants", "\"known_merchants\"", 15, 0x6b),
{
    assert(is_key("id", "\"id\"", 2, 0x69)) by {
        reveal_strlit("id");
        reveal_strlit("\"id\"");
        lemma_key("id", "\"id\"");
    }
    assert(is_key("amount", "\"amount\"", 6, 0x61)) by {
        reveal_strlit("amount");
        reveal_strlit("\"amount\"");
        lemma_key("amount", "\"amount\"");
    }
    assert(is_key("installments", "\"installments\"", 12, 0x69)) by {
        reveal_strlit("installments");
        reveal_strlit("\"installments\"");
        lemma_key("installments", "\"installments\"");
    }
    assert(is_key("requested_at", "\"requested_at\"", 12, 0x72)) by {
        reveal_strlit("requested_at");
        reveal_strlit("\"requested_at\"");
        lemma_key("requested_at", "\"requested_at\"");
    }
    assert(is_key("avg_amount", "\"avg_amount\"", 10, 0x61)) by {
        reveal_strlit("avg_amount");
        reveal_strlit("\"avg_amount\"");
        lemma_key("avg_amount", "\"avg_amount\"");
    }
    assert(is_key("tx_count_24h", "\"tx_count_24h\"", 12, 0x74)) by {
        reveal_strlit("tx_count_24h");
        reveal_strlit("\"tx_count_24h\"");
        lemma_key("tx_count_24h", "\"tx_count_24h\"");
    }
    assert(is_key("known_merchants", "\"known_merchants\"", 15, 0x6b)) by {
        reveal_strlit("known_merchants");
        reveal_strlit("\"known_merchants\"");
        lemma_key("known_merchants", "\"known_merchants\"");
    }
}

/// The names of fields of the merchant, the terminal and the last transaction.
proof fn lemma_tail_keys()
    ensures
        is_key("mcc", "\"mcc\"", 3, 0x6d),
        is_key("is_online", "\"is_online\"", 9, 0x69),
        is_key("card_present", "\"card_present\"", 12, 0x63),
        is_key("km_from_home", "\"km_from_home\"", 12, 0x6b),
        is_key("timestamp", "\"timestamp\"", 9, 0x74),
        is_key("km_from_current", "\"km_from_current\"", 15, 0x6b),
{
    assert(is_key("mcc", "\"mcc\"", 3, 0x6d)) by {
        reveal_strlit("mcc");
        reveal_strlit("\"mcc\"");
        lemma_key("mcc", "\"mcc\"");
    }
    assert(is_key("is_online", "\"is_online\"", 9, 0x69)) by {
        reveal_strlit("is_online");
        reveal_strlit("\"is_online\"");
        lemma_key("is_online", "\"is_online\"");
    }
    assert(is_key("card_present", "\"card_present\"", 12, 0x63)) by {
        reveal_strlit("card_present");
        reveal_strlit("\"card_present\"");
        lemma_key("card_present", "\"card_present\"");
    }
    assert(is_key("km_from_home", "\"km_from_home\"", 12, 0x6b)) by {
        reveal_strlit("km_from_home");
        reveal_strlit("\"km_from_home\"");
        lemma_key("km_from_home", "\"km_from_home\"");
    }
    assert(is_key("timestamp", "\"timestamp\"", 9, 0x74)) by {
        reveal_strlit("timestamp");
        reveal_strlit("\"timestamp\"");
        lemma_key("timestamp", "\"timestamp\"");
    }
    assert(is_key("km_from_current", "\"km_from_current\"", 15, 0x6b)) by {
        reveal_strlit("km_from_current");
        reveal_strlit("\"km_from_current\"");
        lemma_key("km_from_current", "\"km_from_current\"");
    }
}

/// The piece has something in it, no quote, and does not start with a letter.
spec fn is_apart(piece: Seq<u8>) -> bool {
    no_quote(piece) && piece.len() > 0 && !(0x61 <= piece[0] <= 0x7a)
}

/// White space and punctuation are no names.
proof fn lemma_mark_pieces(gaps: Seq<Seq<u8>>, i: int)
    requires
        blank(gaps),
    ensures
        is_apart(colon(gaps, i)),
        is_apart(comma(gaps, i)),
        is_apart(closing(gaps, i)),
        is_apart(colon(gaps, i) + opening(gaps, i + 2)),
{
    lemma_marks(gaps, i);
    lemma_marks(gaps, i + 2);
    lemma_marks_joined(colon(gaps, i), opening(gaps, i + 2));
    lemma_marks_no_quote(colon(gaps, i));
    lemma_marks_no_quote(comma(gaps, i));
    lemma_marks_no_quote(closing(gaps, i));
    lemma_marks_no_quote(colon(gaps, i) + opening(gaps, i + 2));
}

/// The first piece of a request is no name.
proof fn lemma_first_piece(gaps: Seq<Seq<u8>>)
    requires
        blank(gaps),
    ensures
        is_apart(gap(gaps, 0) + opening(gaps, 1)),
{
    let piece = gap(gaps, 0) + opening(gaps, 1);
    lemma_marks(gaps, 1);
    lemma_gap(gaps, 0);
    assert(all_marks(piece));
    lemma_marks_no_quote(piece);
}

/// A number holds no quote.
proof fn lemma_number_text(number: Decimal)
    requires
        number.plain(),
    ensures
        no_quote(number.text()),
{
    let text = number.text();
    let sign = if number.negative {
        seq![0x2du8]
    } else {
        Seq::empty()
    };
    let n = sign.len() as int;
    let m = number.whole.len() as int;
    assert forall|k: int| 0 <= k < text.len() implies #[trigger] text[k] != 0x22 by {
        if n <= k < n + m {
            assert(is_digit(number.whole[k - n]));
        } else if k > n + m {
            assert(is_digit(number.behind->0[k - n - m - 1]));
        }
    }
}

/// A value with marks around it holds no quote, and is no name.
proof fn lemma_value_piece(between: Seq<u8>, value: Seq<u8>, more: Seq<u8>)
    requires
        all_marks(between),
        no_quote(value),
        all_marks(more),
    ensures
        is_apart(between + (value + more)),
{
    let piece = between + (value + more);
    lemma_marks_no_quote(between);
    lemma_marks_no_quote(more);
    let n = between.len() as int;
    let m = value.len() as int;
    assert(piece[0] == between[0]);
    assert forall|k: int| 0 <= k < piece.len() implies #[trigger] piece[k] != 0x22 by {
        if k < n {
            assert(between[k] != 0x22);
        } else if k < n + m {
            assert(value[k - n] != 0x22);
        } else {
            assert(more[k - n - m] != 0x22);
        }
    }
}

/// A piece with a number holds no quote, and is no name.
proof fn lemma_number_piece(gaps: Seq<Seq<u8>>, i: int, number: Decimal)
    requires
        blank(gaps),
        number.plain(),
    ensures
        is_apart(number_piece(colon(gaps, i), number, comma(gaps, i + 2))),
        is_apart(number_piece(colon(gaps, i), number, closing(gaps, i + 2))),
        is_apart(number_piece(colon(gaps, i), number, ending(gaps, i + 2))),
{
    lemma_marks(gaps, i);
    lemma_marks(gaps, i + 2);
    lemma_number_text(number);
    lemma_value_piece(colon(gaps, i), number.text(), comma(gaps, i + 2));
    lemma_value_piece(colon(gaps, i), number.text(), closing(gaps, i + 2));
    lemma_value_piece(colon(gaps, i), number.text(), ending(gaps, i + 2));
}

/// A piece with a truth value holds no quote, and is no name.
proof fn lemma_bool_piece(gaps: Seq<Seq<u8>>, i: int, value: bool)
    requires
        blank(gaps),
    ensures
        is_apart(bool_piece(colon(gaps, i), value, comma(gaps, i + 2))),
{
    lemma_marks(gaps, i);
    lemma_marks(gaps, i + 2);
    assert(no_quote(bool_text(value))) by {
        reveal_strlit("true");
        reveal_strlit("false");
        lemma_literal("true");
        lemma_literal("false");
    }
    lemma_value_piece(colon(gaps, i), bool_text(value), comma(gaps, i + 2));
}

/// A timestamp starts with a digit.
proof fn lemma_timestamp_start(timestamp: Seq<u8>)
    requires
        parts_of(timestamp) is Some,
    ensures
        timestamp.len() > 0,
        is_digit(timestamp[0]),
{
    let year = timestamp.subrange(0, 4);
    assert(is_digit(year[0]));
}

/// The pieces up to the known merchants, one by one.
proof fn lemma_head_at(request: WrittenRequest)
    ensures
        request.head().len() == 22,
        ({
            let g = request.gaps;
            let head = request.head();
            &&& head[0] == gap(g, 0) + opening(g, 1)
            &&& head[1] == bytes_of("id")
            &&& head[2] == colon(g, 2)
            &&& head[3] == request.id
            &&& head[4] == comma(g, 4)
            &&& head[5] == bytes_of("transaction")
            &&& head[6] == colon(g, 6) + opening(g, 8)
            &&& head[7] == bytes_of("amount")
            &&& head[8] == number_piece(colon(g, 9), request.amount, comma(g, 11))
            &&& head[9] == bytes_of("installments")
            &&& head[10] == number_piece(colon(g, 13), request.installments, comma(g, 15))
            &&& head[11] == bytes_of("requested_at")
            &&& head[12] == colon(g, 17)
            &&& head[13] == request.requested_at
            &&& head[14] == closing(g, 19)
            &&& head[15] == bytes_of("customer")
            &&& head[16] == colon(g, 22) + opening(g, 24)
            &&& head[17] == bytes_of("avg_amount")
            &&& head[18] == number_piece(colon(g, 25), request.customer_avg_amount, comma(g, 27))
            &&& head[19] == bytes_of("tx_count_24h")
            &&& head[20] == number_piece(colon(g, 29), request.tx_count_24h, comma(g, 31))
            &&& head[21] == bytes_of("known_merchants")
        }),
{
    reveal(WrittenRequest::head);
}

/// The pieces from the merchant up to the last transaction, one by one.
proof fn lemma_tail_at(request: WrittenRequest)
    ensures
        request.tail().len() == 21,
        ({
            let g = request.gaps;
            let tail = request.tail();
            &&& tail[0] == bytes_of("merchant")
            &&& tail[1] == colon(g, 38) + opening(g, 40)
            &&& tail[2] == bytes_of("id")
            &&& tail[3] == colon(g, 41)
            &&& tail[4] == request.merchant_id
            &&& tail[5] == comma(g, 43)
            &&& tail[6] == bytes_of("mcc")
            &&& tail[7] == colon(g, 45)
            &&& tail[8] == request.mcc
            &&& tail[9] == comma(g, 47)
            &&& tail[10] == bytes_of("avg_amount")
            &&& tail[11] == number_piece(colon(g, 49), request.merchant_avg_amount, closing(g, 51))
            &&& tail[12] == bytes_of("terminal")
            &&& tail[13] == colon(g, 54) + opening(g, 56)
            &&& tail[14] == bytes_of("is_online")
            &&& tail[15] == bool_piece(colon(g, 57), request.is_online, comma(g, 59))
            &&& tail[16] == bytes_of("card_present")
            &&& tail[17] == bool_piece(colon(g, 61), request.card_present, comma(g, 63))
            &&& tail[18] == bytes_of("km_from_home")
            &&& tail[19] == number_piece(colon(g, 65), request.km_from_home, closing(g, 67))
            &&& tail[20] == bytes_of("last_transaction")
        }),
{
    reveal(WrittenRequest::tail);
}

/// How long the names of fields are, and how they start.
proof fn lemma_names()
    ensures
        bytes_of("id").len() == 2 && bytes_of("id")[0] == 0x69,
        bytes_of("transaction").len() == 11 && bytes_of("transaction")[0] == 0x74,
        bytes_of("amount").len() == 6 && bytes_of("amount")[0] == 0x61,
        bytes_of("installments").len() == 12 && bytes_of("installments")[0] == 0x69,
        bytes_of("requested_at").len() == 12 && bytes_of("requested_at")[0] == 0x72,
        bytes_of("customer").len() == 8 && bytes_of("customer")[0] == 0x63,
        bytes_of("avg_amount").len() == 10 && bytes_of("avg_amount")[0] == 0x61,
        bytes_of("tx_count_24h").len() == 12 && bytes_of("tx_count_24h")[0] == 0x74,
        bytes_of("known_merchants").len() == 15 && bytes_of("known_merchants")[0] == 0x6b,
        bytes_of("merchant").len() == 8 && bytes_of("merchant")[0] == 0x6d,
        bytes_of("mcc").len() == 3 && bytes_of("mcc")[0] == 0x6d,
        bytes_of("terminal").len() == 8 && bytes_of("terminal")[0] == 0x74,
        bytes_of("is_online").len() == 9 && bytes_of("is_online")[0] == 0x69,
        bytes_of("card_present").len() == 12 && bytes_of("card_present")[0] == 0x63,
        bytes_of("km_from_home").len() == 12 && bytes_of("km_from_home")[0] == 0x6b,
        bytes_of("last_transaction").len() == 16 && bytes_of("last_transaction")[0] == 0x6c,
        bytes_of("timestamp").len() == 9 && bytes_of("timestamp")[0] == 0x74,
        bytes_of("km_from_current").len() == 15 && bytes_of("km_from_current")[0] == 0x6b,
{
    lemma_section_keys();
    lemma_head_keys();
    lemma_tail_keys();
}

/// The pieces up to the known merchants that stand around names and values.
proof fn lemma_head_apart(request: WrittenRequest)
    requires
        request.wf(),
    ensures
        ({
            let head = request.head();
            &&& is_apart(head[0]) && is_apart(head[2]) && is_apart(head[4]) && is_apart(head[6])
            &&& is_apart(head[8]) && is_apart(head[10]) && is_apart(head[12]) && is_apart(head[14])
            &&& is_apart(head[16]) && is_apart(head[18]) && is_apart(head[20])
        }),
{
    let g = request.gaps;
    lemma_head_at(request);
    lemma_first_piece(g);
    lemma_mark_pieces(g, 2);
    lemma_mark_pieces(g, 4);
    lemma_mark_pieces(g, 6);
    lemma_number_piece(g, 9, request.amount);
    lemma_number_piece(g, 13, request.installments);
    lemma_mark_pieces(g, 17);
    lemma_mark_pieces(g, 19);
    lemma_mark_pieces(g, 22);
    lemma_number_piece(g, 25, request.customer_avg_amount);
    lemma_number_piece(g, 29, request.tx_count_24h);
}

/// The pieces from the merchant up to the last transaction that stand around names and values.
proof fn lemma_tail_apart(request: WrittenRequest)
    requires
        request.wf(),
    ensures
        ({
            let tail = request.tail();
            &&& is_apart(tail[1]) && is_apart(tail[3]) && is_apart(tail[5]) && is_apart(tail[7])
            &&& is_apart(tail[9]) && is_apart(tail[11]) && is_apart(tail[13]) && is_apart(tail[15])
            &&& is_apart(tail[17]) && is_apart(tail[19])
        }),
{
    let g = request.gaps;
    lemma_tail_at(request);
    lemma_mark_pieces(g, 38);
    lemma_mark_pieces(g, 41);
    lemma_mark_pieces(g, 43);
    lemma_mark_pieces(g, 45);
    lemma_mark_pieces(g, 47);
    lemma_number_piece(g, 49, request.merchant_avg_amount);
    lemma_mark_pieces(g, 54);
    lemma_bool_piece(g, 57, request.is_online);
    lemma_bool_piece(g, 61, request.card_present);
    lemma_number_piece(g, 65, request.km_from_home);
}

/// None of the pieces up to the known merchants holds a quote.
#[verifier::rlimit(40)]
proof fn lemma_head_quotes(request: WrittenRequest)
    requires
        request.wf(),
    ensures
        no_quotes(request.head()),
{
    lemma_head_apart(request);
    assert(no_quote(bytes_of("transaction")) && no_quote(bytes_of("customer"))) by {
        lemma_section_keys();
    }
    assert(no_quote(bytes_of("id")) && no_quote(bytes_of("amount")) && no_quote(
        bytes_of("installments"),
    ) && no_quote(bytes_of("requested_at")) && no_quote(bytes_of("avg_amount")) && no_quote(
        bytes_of("tx_count_24h"),
    ) && no_quote(bytes_of("known_merchants"))) by {
        lemma_head_keys();
    }
    reveal(WrittenRequest::head);
}

/// Where the names of fields stand among the pieces up to the known merchants.
#[verifier::rlimit(40)]
proof fn lemma_head_names(request: WrittenRequest)
    requires
        request.wf(),
    ensures
        forall|j: int|
            0 <= j < 22 ==> {
                let piece = #[trigger] request.head()[j];
                &&& piece != bytes_of("merchant")
                &&& piece != bytes_of("terminal")
                &&& piece != bytes_of("last_transaction")
                &&& j != 5 ==> piece != bytes_of("transaction")
                &&& j != 15 ==> piece != bytes_of("customer")
                &&& 5 <= j < 7 ==> piece != bytes_of("amount")
                &&& 5 <= j < 9 ==> piece != bytes_of("installments")
                &&& 5 <= j < 11 ==> piece != bytes_of("requested_at")
                &&& 15 <= j < 17 ==> piece != bytes_of("avg_amount")
                &&& 15 <= j < 19 ==> piece != bytes_of("tx_count_24h")
                &&& 15 <= j < 21 ==> piece != bytes_of("known_merchants")
            },
{
    lemma_head_apart(request);
    lemma_names();
    lemma_timestamp_start(request.requested_at);
    reveal(WrittenRequest::head);
}

/// None of the pieces from the merchant up to the last transaction holds a quote.
#[verifier::rlimit(40)]
proof fn lemma_tail_quotes(request: WrittenRequest)
    requires
        request.wf(),
    ensures
        no_quotes(request.tail()),
{
    lemma_tail_apart(request);
    assert(no_quote(bytes_of("merchant")) && no_quote(bytes_of("terminal")) && no_quote(
        bytes_of("last_transaction"),
    )) by {
        lemma_section_keys();
    }
    assert(no_quote(bytes_of("id")) && no_quote(bytes_of("avg_amount"))) by {
        lemma_head_keys();
    }
    assert(no_quote(bytes_of("mcc")) && no_quote(bytes_of("is_online")) && no_quote(
        bytes_of("card_present"),
    ) && no_quote(bytes_of("km_from_home"))) by {
        lemma_tail_keys();
    }
    reveal(WrittenRequest::tail);
}

/// Where the names of fields stand among the pieces from the merchant up to the last
/// transaction.
#[verifier::rlimit(40)]
proof fn lemma_tail_names(request: WrittenRequest)
    requires
        request.wf(),
    ensures
        forall|j: int|
            0 <= j < 21 ==> {
                let piece = #[trigger] request.tail()[j];
                &&& j != 0 ==> piece != bytes_of("merchant")
                &&& j != 12 ==> piece != bytes_of("terminal")
                &&& j != 20 ==> piece != bytes_of("last_transaction")
                &&& j < 2 ==> piece != bytes_of("id")
                &&& j < 6 ==> piece != bytes_of("mcc")
                &&& j < 10 ==> piece != bytes_of("avg_amount")
                &&& 12 <= j < 14 ==> piece != bytes_of("is_online")
                &&& 12 <= j < 16 ==> piece != bytes_of("card_present")
                &&& 12 <= j < 18 ==> piece != bytes_of("km_from_home")
                &&& 20 <= j ==> piece != bytes_of("timestamp")
                &&& 20 <= j ==> piece != bytes_of("km_from_current")
            },
{
    lemma_tail_apart(request);
    lemma_names();
    reveal(WrittenRequest::tail);
}

/// The pieces of the known merchants: none holds a quote or is the name of a section.
proof fn lemma_known(request: WrittenRequest)
    requires
        request.wf(),
    ensures
        no_quotes(request.known()),
        forall|j: int|
            0 <= j < request.known().len() ==> !is_section_name(#[trigger] request.known()[j]),
{
    let known = request.known();
    let names = request.known_merchants;
    let g = request.known_gaps;
    let front = colon(request.gaps, 33) + list_open(g);
    let back = list_close(g) + closing(request.gaps, 35);
    assert(all_marks(front) && all_marks(back)) by {
        lemma_marks(request.gaps, 33);
        lemma_marks(request.gaps, 35);
        lemma_gap(g, 0);
        lemma_gap(g, 1);
    }
    lemma_marks_joined(front, back);
    lemma_marks_no_quote(front);
    lemma_marks_no_quote(back);
    lemma_marks_no_quote(front + back);
    lemma_names();
    assert forall|j: int| 0 <= j < known.len() implies no_quote(#[trigger] known[j])
        && !is_section_name(known[j]) by {
        if names.len() > 0 && j % 2 == 1 {
            assert(known[j] == names[j / 2]);
        } else if 0 < j < known.len() - 1 {
            assert(known[j] == comma(g, j));
            lemma_mark_pieces(g, j);
        }
    }
}

/// The pieces of the last transaction that stand around names and values.
proof fn lemma_end_apart(request: WrittenRequest)
    requires
        request.wf(),
    ensures
        is_apart(request.end()[0]),
        request.last is Some ==> is_apart(request.end()[2]) && is_apart(request.end()[4])
            && is_apart(request.end()[6]),
{
    let g = request.gaps;
    match request.last {
        Some((timestamp, km_from_current)) => {
            lemma_mark_pieces(g, 70);
            lemma_mark_pieces(g, 73);
            lemma_mark_pieces(g, 75);
            lemma_number_piece(g, 77, km_from_current);
        },
        None => {
            let more = gap(g, 72) + seq![0x7du8] + gap(g, 73);
            assert(no_quote(bytes_of("null"))) by {
                reveal_strlit("null");
                lemma_literal("null");
            }
            lemma_marks(g, 70);
            lemma_gap(g, 72);
            lemma_gap(g, 73);
            assert(all_marks(more));
            lemma_value_piece(colon(g, 70), bytes_of("null"), more);
        },
    }
}

/// None of the pieces of the last transaction holds a quote.
proof fn lemma_end_quotes(request: WrittenRequest)
    requires
        request.wf(),
    ensures
        no_quotes(request.end()),
{
    lemma_end_apart(request);
    if request.last is Some {
        assert(no_quote(bytes_of("timestamp")) && no_quote(bytes_of("km_from_current"))) by {
            lemma_tail_keys();
        }
    }
}

/// Where the names of fields stand among the pieces of the last transaction.
proof fn lemma_end_names(request: WrittenRequest)
    requires
        request.wf(),
        request.last is Some,
    ensures
        forall|j: int|
            0 <= j < 7 ==> {
                let piece = #[trigger] request.end()[j];
                &&& j < 1 ==> piece != bytes_of("timestamp")
                &&& j < 5 ==> piece != bytes_of("km_from_current")
            },
{
    lemma_end_apart(request);
    lemma_names();
    let (timestamp, _) = request.last->Some_0;
    lemma_timestamp_start(timestamp);
}

/// Which piece names the merchant.
spec fn merchant_at(request: WrittenRequest) -> int {
    22 + request.known().len() as int
}

/// Where the parts of a request stand among its pieces.
#[verifier::rlimit(40)]
proof fn lemma_pieces(request: WrittenRequest)
    requires
        request.wf(),
    ensures
        request.pieces().len() == merchant_at(request) + 21 + request.end().len(),
        no_quotes(request.pieces()),
        forall|j: int| 0 <= j < 22 ==> #[trigger] request.pieces()[j] == request.head()[j],
        forall|j: int|
            22 <= j < merchant_at(request) ==> #[trigger] request.pieces()[j] == request.known()[j
                - 22],
        forall|j: int|
            merchant_at(request) <= j < merchant_at(request) + 21
                ==> #[trigger] request.pieces()[j] == request.tail()[j - merchant_at(request)],
        forall|j: int|
            merchant_at(request) + 21 <= j < request.pieces().len()
                ==> #[trigger] request.pieces()[j] == request.end()[j - merchant_at(request) - 21],
{
    reveal(WrittenRequest::pieces);
    let pieces = request.pieces();
    let c = merchant_at(request);
    lemma_head_at(request);
    lemma_tail_at(request);
    lemma_head_quotes(request);
    lemma_known(request);
    lemma_tail_quotes(request);
    lemma_end_quotes(request);
    assert forall|j: int| 0 <= j < pieces.len() implies no_quote(#[trigger] pieces[j]) by {
        if j < 22 {
            assert(no_quote(request.head()[j]));
        } else if j < c {
            assert(no_quote(request.known()[j - 22]));
        } else if j < c + 21 {
            assert(no_quote(request.tail()[j - c]));
        } else {
            assert(no_quote(request.end()[j - c - 21]));
        }
    }
}

/// The sections are fields whose values are objects.
#[verifier::rlimit(40)]
proof fn lemma_sections(request: WrittenRequest)
    requires
        request.wf(),
    ensures
        ({
            let pieces = request.pieces();
            let g = request.gaps;
            let c = merchant_at(request);
            &&& is_field(pieces, bytes_of("transaction"), 0, 5, colon(g, 6), opening(g, 8))
            &&& is_field(pieces, bytes_of("customer"), 0, 15, colon(g, 22), opening(g, 24))
            &&& is_field(pieces, bytes_of("merchant"), 0, c, colon(g, 38), opening(g, 40))
            &&& is_field(pieces, bytes_of("terminal"), 0, c + 12, colon(g, 54), opening(g, 56))
        }),
{
    let pieces = request.pieces();
    let head = request.head();
    let tail = request.tail();
    let g = request.gaps;
    let c = merchant_at(request);
    lemma_pieces(request);
    lemma_head_at(request);
    lemma_tail_at(request);
    lemma_colon(g, 6);
    lemma_colon(g, 22);
    lemma_colon(g, 38);
    lemma_colon(g, 54);
    assert(pieces[5] == head[5] && pieces[6] == head[6]);
    assert(pieces[15] == head[15] && pieces[16] == head[16]);
    assert(pieces[c] == tail[0] && pieces[c + 1] == tail[1]);
    assert(pieces[c + 12] == tail[12] && pieces[c + 13] == tail[13]);
    assert forall|j: int| 0 <= j < c + 20 implies no_section_before(
        request,
        j,
        #[trigger] pieces[j],
    ) by {
        lemma_no_section_before(request, j);
    }
    assert(is_field(pieces, bytes_of("transaction"), 0, 5, colon(g, 6), opening(g, 8))) by {
        lemma_section_keys();
    }
    assert(is_field(pieces, bytes_of("customer"), 0, 15, colon(g, 22), opening(g, 24))) by {
        lemma_section_keys();
    }
    assert(is_field(pieces, bytes_of("merchant"), 0, c, colon(g, 38), opening(g, 40))) by {
        lemma_section_keys();
    }
    assert(is_field(pieces, bytes_of("terminal"), 0, c + 12, colon(g, 54), opening(g, 56))) by {
        lemma_section_keys();
    }
}

/// Piece `j` is the name of no section that stands behind it.
spec fn no_section_before(request: WrittenRequest, j: int, piece: Seq<u8>) -> bool {
    let c = merchant_at(request);
    &&& j < 5 ==> piece != bytes_of("transaction")
    &&& j < 15 ==> piece != bytes_of("customer")
    &&& j < c ==> piece != bytes_of("merchant")
    &&& j < c + 12 ==> piece != bytes_of("terminal")
    &&& j < c + 20 ==> piece != bytes_of("last_transaction")
}

proof fn lemma_no_section_before(request: WrittenRequest, j: int)
    requires
        request.wf(),
        0 <= j < merchant_at(request) + 20,
    ensures
        no_section_before(request, j, request.pieces()[j]),
{
    let c = merchant_at(request);
    lemma_pieces(request);
    if j < 22 {
        lemma_head_names(request);
        assert(request.pieces()[j] == request.head()[j]);
    } else if j < c {
        lemma_known(request);
        assert(!is_section_name(request.known()[j - 22]));
    } else {
        lemma_tail_names(request);
        assert(request.pieces()[j] == request.tail()[j - c]);
    }
}

/// The last transaction is a field.
#[verifier::rlimit(40)]
proof fn lemma_last_section(request: WrittenRequest, value: Seq<u8>)
    requires
        request.wf(),
        request.end()[0] == colon(request.gaps, 70) + value,
    ensures
        is_field(
            request.pieces(),
            bytes_of("last_transaction"),
            0,
            merchant_at(request) + 20,
            colon(request.gaps, 70),
            value,
        ),
{
    let pieces = request.pieces();
    let c = merchant_at(request);
    lemma_pieces(request);
    lemma_tail_at(request);
    lemma_colon(request.gaps, 70);
    assert(pieces[c + 20] == request.tail()[20]);
    assert(pieces[c + 21] == request.end()[0]);
    assert forall|j: int| 0 <= j < c + 20 implies #[trigger] pieces[j] != bytes_of(
        "last_transaction",
    ) by {
        lemma_no_section_before(request, j);
    }
    lemma_section_keys();
}

/// A name among the pieces up to the known merchants is a field.
proof fn lemma_head_field(
    request: WrittenRequest,
    name: Seq<u8>,
    lo: int,
    i: int,
    between: Seq<u8>,
    value: Seq<u8>,
)
    requires
        request.wf(),
        0 <= lo <= i,
        1 <= i < 21,
        request.head()[i] == name,
        forall|j: int| lo <= j < i && 0 <= j < 22 ==> #[trigger] request.head()[j] != name,
        forall|k: int| 0 <= k < name.len() ==> #[trigger] name[k] != 0x3a,
        is_colon(between),
        request.head()[i + 1] == between + value,
    ensures
        is_field(request.pieces(), name, lo, i, between, value),
{
    let pieces = request.pieces();
    lemma_pieces(request);
    assert(pieces[i] == request.head()[i] && pieces[i + 1] == request.head()[i + 1]);
    assert forall|j: int| lo <= j < i && 1 <= j implies #[trigger] pieces[j] != name by {
        assert(pieces[j] == request.head()[j]);
    }
}

/// A name among the pieces from the merchant up to the last transaction is a field.
proof fn lemma_tail_field(
    request: WrittenRequest,
    name: Seq<u8>,
    lo: int,
    i: int,
    between: Seq<u8>,
    value: Seq<u8>,
)
    requires
        request.wf(),
        0 <= lo <= i < 20,
        request.tail()[i] == name,
        forall|j: int| lo <= j < i && 0 <= j < 21 ==> #[trigger] request.tail()[j] != name,
        forall|k: int| 0 <= k < name.len() ==> #[trigger] name[k] != 0x3a,
        is_colon(between),
        request.tail()[i + 1] == between + value,
    ensures
        is_field(
            request.pieces(),
            name,
            merchant_at(request) + lo,
            merchant_at(request) + i,
            between,
            value,
        ),
{
    let pieces = request.pieces();
    let c = merchant_at(request);
    lemma_pieces(request);
    assert(pieces[c + i] == request.tail()[i] && pieces[c + i + 1] == request.tail()[i + 1]);
    assert forall|j: int| c + lo <= j < c + i && 1 <= j implies #[trigger] pieces[j] != name by {
        assert(pieces[j] == request.tail()[j - c]);
    }
}

/// A name among the pieces of the last transaction is a field.
proof fn lemma_end_field(
    request: WrittenRequest,
    name: Seq<u8>,
    i: int,
    between: Seq<u8>,
    value: Seq<u8>,
)
    requires
        request.wf(),
        0 <= i < request.end().len() - 1,
        request.end()[i] == name,
        request.tail()[20] != name,
        forall|j: int| 0 <= j < i ==> #[trigger] request.end()[j] != name,
        forall|k: int| 0 <= k < name.len() ==> #[trigger] name[k] != 0x3a,
        is_colon(between),
        request.end()[i + 1] == between + value,
    ensures
        is_field(
            request.pieces(),
            name,
            merchant_at(request) + 20,
            merchant_at(request) + 21 + i,
            between,
            value,
        ),
{
    let pieces = request.pieces();
    let c = merchant_at(request);
    lemma_pieces(request);
    assert(pieces[c + 20] == request.tail()[20]);
    assert(pieces[c + 21 + i] == request.end()[i]);
    assert(pieces[c + 21 + i + 1] == request.end()[i + 1]);
    assert forall|j: int| c + 20 <= j < c + 21 + i && 1 <= j implies #[trigger] pieces[j]
        != name by {
        if j > c + 20 {
            assert(pieces[j] == request.end()[j - c - 21]);
        }
    }
}

/// A colon alone is a colon with nothing behind it.
proof fn lemma_bare(s: Seq<u8>)
    ensures
        s == s + Seq::<u8>::empty(),
{
    assert(s =~= s + Seq::<u8>::empty());
}

/// The transaction is read.
#[verifier::rlimit(40)]
proof fn lemma_transaction(request: WrittenRequest)
    requires
        request.wf(),
    ensures
        transaction_fields(request.text(), from_piece(request.pieces(), 5)) == Ok::<
            TransactionFields,
            VectorizeError,
        >(request.model().transaction),
{
    let pieces = request.pieces();
    let g = request.gaps;
    let (amount, installments, requested_at) = (
        bytes_of("amount"),
        bytes_of("installments"),
        bytes_of("requested_at"),
    );
    assert(is_field(pieces, amount, 5, 7, colon(g, 9), request.amount.text() + comma(g, 11))
        && is_field(
        pieces,
        installments,
        5,
        9,
        colon(g, 13),
        request.installments.text() + comma(g, 15),
    ) && is_field(pieces, requested_at, 5, 11, colon(g, 17), Seq::empty()) && pieces[13]
        == request.requested_at && pieces.len() > 22) by {
        lemma_pieces(request);
        lemma_head_at(request);
        lemma_head_names(request);
        lemma_head_keys();
        lemma_colon(g, 9);
        lemma_colon(g, 13);
        lemma_colon(g, 17);
        lemma_bare(colon(g, 17));
        lemma_head_field(
            request,
            amount,
            5,
            7,
            colon(g, 9),
            request.amount.text() + comma(g, 11),
        );
        lemma_head_field(
            request,
            installments,
            5,
            9,
            colon(g, 13),
            request.installments.text() + comma(g, 15),
        );
        lemma_head_field(request, requested_at, 5, 11, colon(g, 17), Seq::empty());
    }
    assert(bytes_of("\"amount\"") == quoted(amount) && bytes_of("\"installments\"") == quoted(
        installments,
    ) && bytes_of("\"requested_at\"") == quoted(requested_at)) by {
        lemma_head_keys();
    }
    lemma_marks(g, 11);
    lemma_marks(g, 15);
    lemma_number_field(pieces, amount, 5, 7, colon(g, 9), request.amount, comma(g, 11));
    lemma_number_field(
        pieces,
        installments,
        5,
        9,
        colon(g, 13),
        request.installments,
        comma(g, 15),
    );
    lemma_string_field(pieces, requested_at, 5, 11, colon(g, 17));
}

/// The known merchants are a list in a field.
#[verifier::rlimit(40)]
proof fn lemma_known_field(request: WrittenRequest)
    requires
        request.wf(),
    ensures
        ({
            let pieces = request.pieces();
            let between = colon(request.gaps, 33);
            &&& is_field(
                pieces,
                bytes_of("known_merchants"),
                15,
                21,
                between,
                pieces[22].skip(between.len() as int),
            )
            &&& is_list(
                pieces,
                22,
                request.known_merchants,
                request.known_gaps,
                between,
                closing(request.gaps, 35),
            )
        }),
{
    let pieces = request.pieces();
    let known = request.known();
    let between = colon(request.gaps, 33);
    let name = bytes_of("known_merchants");
    lemma_pieces(request);
    lemma_head_at(request);
    lemma_colon(request.gaps, 33);
    assert forall|j: int| 0 <= j < known.len() implies #[trigger] pieces[22 + j] == known[j] by {
        assert(pieces[22 + j] == known[22 + j - 22]);
    }
    assert(pieces[22] == known[22 - 22]);
    assert(pieces[22] =~= between + pieces[22].skip(between.len() as int)) by {
        assert(known[0].len() >= between.len() && known[0].take(between.len() as int) =~= between);
    }
    assert(pieces[21] == name);
    assert forall|j: int| 15 <= j < 21 implies #[trigger] pieces[j] != name by {
        lemma_head_names(request);
        assert(pieces[j] == request.head()[j]);
    }
    lemma_head_keys();
}

/// The customer is read.
#[verifier::rlimit(40)]
proof fn lemma_customer(request: WrittenRequest)
    requires
        request.wf(),
    ensures
        customer_fields(request.text(), from_piece(request.pieces(), 15)) == Ok::<
            (Number, Number, Seq<u8>),
            VectorizeError,
        >(
            (
                request.model().customer_avg_amount,
                request.model().tx_count_24h,
                list_text(request.known_merchants, request.known_gaps),
            ),
        ),
{
    let pieces = request.pieces();
    let g = request.gaps;
    let (average, count, known) = (
        bytes_of("avg_amount"),
        bytes_of("tx_count_24h"),
        bytes_of("known_merchants"),
    );
    assert(is_field(
        pieces,
        average,
        15,
        17,
        colon(g, 25),
        request.customer_avg_amount.text() + comma(g, 27),
    ) && is_field(
        pieces,
        count,
        15,
        19,
        colon(g, 29),
        request.tx_count_24h.text() + comma(g, 31),
    )) by {
        lemma_head_at(request);
        lemma_head_names(request);
        lemma_head_keys();
        lemma_colon(g, 25);
        lemma_colon(g, 29);
        lemma_head_field(
            request,
            average,
            15,
            17,
            colon(g, 25),
            request.customer_avg_amount.text() + comma(g, 27),
        );
        lemma_head_field(
            request,
            count,
            15,
            19,
            colon(g, 29),
            request.tx_count_24h.text() + comma(g, 31),
        );
    }
    assert(bytes_of("\"avg_amount\"") == quoted(average) && bytes_of("\"tx_count_24h\"") == quoted(
        count,
    ) && bytes_of("\"known_merchants\"") == quoted(known)) by {
        lemma_head_keys();
    }
    lemma_marks(g, 27);
    lemma_marks(g, 31);
    lemma_known_field(request);
    lemma_number_field(
        pieces,
        average,
        15,
        17,
        colon(g, 25),
        request.customer_avg_amount,
        comma(g, 27),
    );
    lemma_number_field(pieces, count, 15, 19, colon(g, 29), request.tx_count_24h, comma(g, 31));
    lemma_array_field(
        pieces,
        known,
        15,
        21,
        request.known_merchants,
        request.known_gaps,
        colon(g, 33),
        closing(g, 35),
    );
}

/// The merchant is read.
#[verifier::rlimit(40)]
proof fn lemma_merchant(request: WrittenRequest)
    requires
        request.wf(),
    ensures
        merchant_fields(request.text(), from_piece(request.pieces(), merchant_at(request))) == Ok::<
            (Seq<u8>, Seq<u8>, Number),
            VectorizeError,
        >((request.merchant_id, request.mcc, request.model().merchant_avg_amount)),
{
    let pieces = request.pieces();
    let g = request.gaps;
    let c = merchant_at(request);
    let (id, mcc, average) = (bytes_of("id"), bytes_of("mcc"), bytes_of("avg_amount"));
    assert(is_field(pieces, id, c, c + 2, colon(g, 41), Seq::empty()) && is_field(
        pieces,
        mcc,
        c,
        c + 6,
        colon(g, 45),
        Seq::empty(),
    ) && is_field(
        pieces,
        average,
        c,
        c + 10,
        colon(g, 49),
        request.merchant_avg_amount.text() + closing(g, 51),
    )) by {
        lemma_tail_at(request);
        lemma_tail_names(request);
        lemma_head_keys();
        lemma_tail_keys();
        lemma_colon(g, 41);
        lemma_colon(g, 45);
        lemma_colon(g, 49);
        lemma_bare(colon(g, 41));
        lemma_bare(colon(g, 45));
        lemma_tail_field(request, id, 0, 2, colon(g, 41), Seq::empty());
        lemma_tail_field(request, mcc, 0, 6, colon(g, 45), Seq::empty());
        lemma_tail_field(
            request,
            average,
            0,
            10,
            colon(g, 49),
            request.merchant_avg_amount.text() + closing(g, 51),
        );
    }
    assert(pieces.len() > c + 21 && pieces[c + 4] == request.merchant_id && pieces[c + 8]
        == request.mcc) by {
        lemma_pieces(request);
        lemma_tail_at(request);
        assert(pieces[c + 4] == request.tail()[4] && pieces[c + 8] == request.tail()[8]);
    }
    assert(bytes_of("\"id\"") == quoted(id) && bytes_of("\"avg_amount\"") == quoted(average)) by {
        lemma_head_keys();
    }
    assert(bytes_of("\"mcc\"") == quoted(mcc)) by {
        lemma_tail_keys();
    }
    lemma_marks(g, 51);
    lemma_string_field(pieces, id, c, c + 2, colon(g, 41));
    lemma_string_field(pieces, mcc, c, c + 6, colon(g, 45));
    lemma_number_field(
        pieces,
        average,
        c,
        c + 10,
        colon(g, 49),
        request.merchant_avg_amount,
        closing(g, 51),
    );
}

/// The terminal is read.
#[verifier::rlimit(40)]
proof fn lemma_terminal(request: WrittenRequest)
    requires
        request.wf(),
    ensures
        terminal_fields(request.text(), from_piece(request.pieces(), merchant_at(request) + 12))
            == Ok::<TerminalFields, VectorizeError>(request.model().terminal),
{
    let pieces = request.pieces();
    let g = request.gaps;
    let c = merchant_at(request);
    let (online, present, km) = (
        bytes_of("is_online"),
        bytes_of("card_present"),
        bytes_of("km_from_home"),
    );
    assert(is_field(
        pieces,
        online,
        c + 12,
        c + 14,
        colon(g, 57),
        bool_text(request.is_online) + comma(g, 59),
    ) && is_field(
        pieces,
        present,
        c + 12,
        c + 16,
        colon(g, 61),
        bool_text(request.card_present) + comma(g, 63),
    ) && is_field(
        pieces,
        km,
        c + 12,
        c + 18,
        colon(g, 65),
        request.km_from_home.text() + closing(g, 67),
    )) by {
        lemma_tail_at(request);
        lemma_tail_names(request);
        lemma_tail_keys();
        lemma_colon(g, 57);
        lemma_colon(g, 61);
        lemma_colon(g, 65);
        lemma_tail_field(
            request,
            online,
            12,
            14,
            colon(g, 57),
            bool_text(request.is_online) + comma(g, 59),
        );
        lemma_tail_field(
            request,
            present,
            12,
            16,
            colon(g, 61),
            bool_text(request.card_present) + comma(g, 63),
        );
        lemma_tail_field(
            request,
            km,
            12,
            18,
            colon(g, 65),
            request.km_from_home.text() + closing(g, 67),
        );
    }
    assert(bytes_of("\"is_online\"") == quoted(online) && bytes_of("\"card_present\"") == quoted(
        present,
    ) && bytes_of("\"km_from_home\"") == quoted(km)) by {
        lemma_tail_keys();
    }
    lemma_marks(g, 67);
    lemma_bool_field(
        pieces,
        online,
        c + 12,
        c + 14,
        colon(g, 57),
        request.is_online,
        comma(g, 59),
    );
    lemma_bool_field(
        pieces,
        present,
        c + 12,
        c + 16,
        colon(g, 61),
        request.card_present,
        comma(g, 63),
    );
    lemma_number_field(
        pieces,
        km,
        c + 12,
        c + 18,
        colon(g, 65),
        request.km_from_home,
        closing(g, 67),
    );
}

/// Whether there is a last transaction is read.
#[verifier::rlimit(40)]
proof fn lemma_last_value(request: WrittenRequest)
    requires
        request.wf(),
    ensures
        value_at(request.text(), from_piece(request.pieces(), merchant_at(request) + 20)) matches Some(
            start,
        ) && (occurs_at(request.text(), bytes_of("null"), start) <==> request.last is None),
{
    let pieces = request.pieces();
    let g = request.gaps;
    let c = merchant_at(request);
    let n = colon(g, 70).len() as int;
    let word = bytes_of("null");
    let value = if request.last is Some {
        opening(g, 72)
    } else {
        request.null_end()
    };
    assert(word.len() == 4 && word[0] == 0x6e) by {
        reveal_strlit("null");
        lemma_literal("null");
    }
    assert(value.len() > 0 && value[0] == if request.last is Some {
        0x7bu8
    } else {
        0x6eu8
    }) by {
        reveal(opening);
    }
    lemma_last_section(request, value);
    let piece = pieces[c + 21];
    assert(piece[n] == value[0]);
    if request.last is None {
        assert(piece.subrange(n, n + word.len()) =~= word);
    }
    lemma_field(pieces, bytes_of("last_transaction"), 0, c + 20, colon(g, 70), value);
    lemma_word_at_value(pieces, c + 21, n, word);
}

/// When and how far away the last transaction was is read.
#[verifier::rlimit(40)]
proof fn lemma_last_fields(request: WrittenRequest, timestamp: Seq<u8>, km_from_current: Decimal)
    requires
        request.wf(),
        request.last == Some((timestamp, km_from_current)),
    ensures
        string_field(
            request.text(),
            from_piece(request.pieces(), merchant_at(request) + 20),
            bytes_of("\"timestamp\""),
        ) == Ok::<Seq<u8>, VectorizeError>(timestamp),
        number_field(
            request.text(),
            from_piece(request.pieces(), merchant_at(request) + 20),
            bytes_of("\"km_from_current\""),
        ) == Ok::<Number, VectorizeError>(km_from_current.number()),
{
    let pieces = request.pieces();
    let g = request.gaps;
    let c = merchant_at(request);
    let (time, km) = (bytes_of("timestamp"), bytes_of("km_from_current"));
    assert(is_field(pieces, time, c + 20, c + 22, colon(g, 73), Seq::empty()) && is_field(
        pieces,
        km,
        c + 20,
        c + 26,
        colon(g, 77),
        km_from_current.text() + ending(g, 79),
    )) by {
        lemma_tail_names(request);
        lemma_end_names(request);
        lemma_tail_keys();
        lemma_colon(g, 73);
        lemma_colon(g, 77);
        lemma_bare(colon(g, 73));
        lemma_end_field(request, time, 1, colon(g, 73), Seq::empty());
        lemma_end_field(request, km, 5, colon(g, 77), km_from_current.text() + ending(g, 79));
    }
    assert(pieces.len() == c + 28 && pieces[c + 24] == timestamp) by {
        lemma_pieces(request);
        assert(pieces[c + 24] == request.end()[3]);
    }
    assert(bytes_of("\"timestamp\"") == quoted(time) && bytes_of("\"km_from_current\"") == quoted(
        km,
    )) by {
        lemma_tail_keys();
    }
    lemma_marks(g, 79);
    lemma_string_field(pieces, time, c + 20, c + 22, colon(g, 73));
    lemma_number_field(
        pieces,
        km,
        c + 20,
        c + 26,
        colon(g, 77),
        km_from_current,
        ending(g, 79),
    );
}

/// The last transaction is read.
proof fn lemma_last(request: WrittenRequest)
    requires
        request.wf(),
    ensures
        last_fields(
            request.text(),
            from_piece(request.pieces(), merchant_at(request) + 20),
            request.model().transaction.requested_minutes as int,
        ) == Ok::<Option<LastFields>, VectorizeError>(request.model().last),
{
    lemma_last_value(request);
    lemma_minute_bounds(request.requested_at);
    if let Some((timestamp, km_from_current)) = request.last {
        lemma_last_fields(request, timestamp, km_from_current);
    }
}

/// A section is found at its name.
proof fn lemma_section_found(
    request: WrittenRequest,
    name: Seq<u8>,
    i: int,
    between: Seq<u8>,
    value: Seq<u8>,
)
    requires
        is_field(request.pieces(), name, 0, i, between, value),
        request.text().len() <= usize::MAX,
    ensures
        first_at(request.text(), quoted(name), 0) == Some(from_piece(request.pieces(), i)),
        0 <= from_piece(request.pieces(), i) <= usize::MAX,
{
    lemma_name_found(request.pieces(), name, 0, i);
    lemma_piece_quote(request.pieces(), i);
}

/// The sections are found.
proof fn lemma_sections_found(request: WrittenRequest)
    requires
        request.wf(),
        request.text().len() <= usize::MAX,
    ensures
        sections_of(request.text()) matches Some(sections) && {
            &&& sections.transaction == from_piece(request.pieces(), 5)
            &&& sections.customer == from_piece(request.pieces(), 15)
            &&& sections.merchant == from_piece(request.pieces(), merchant_at(request))
            &&& sections.terminal == from_piece(request.pieces(), merchant_at(request) + 12)
            &&& sections.last_transaction == from_piece(
                request.pieces(),
                merchant_at(request) + 20,
            )
        },
{
    let c = merchant_at(request);
    let g = request.gaps;
    let value = request.end()[0].skip(colon(g, 70).len() as int);
    assert(request.end()[0] =~= colon(g, 70) + value);
    lemma_sections(request);
    lemma_last_section(request, value);
    lemma_section_found(request, bytes_of("transaction"), 5, colon(g, 6), opening(g, 8));
    lemma_section_found(request, bytes_of("customer"), 15, colon(g, 22), opening(g, 24));
    lemma_section_found(request, bytes_of("merchant"), c, colon(g, 38), opening(g, 40));
    lemma_section_found(request, bytes_of("terminal"), c + 12, colon(g, 54), opening(g, 56));
    lemma_section_found(request, bytes_of("last_transaction"), c + 20, colon(g, 70), value);
    assert(bytes_of("\"transaction\"") == quoted(bytes_of("transaction")) && bytes_of(
        "\"customer\"",
    ) == quoted(bytes_of("customer")) && bytes_of("\"merchant\"") == quoted(bytes_of("merchant"))
        && bytes_of("\"terminal\"") == quoted(bytes_of("terminal")) && bytes_of(
        "\"last_transaction\"",
    ) == quoted(bytes_of("last_transaction"))) by {
        lemma_section_keys();
    }
}

/// A request that is written is read as what it says, whatever white space stands between its
/// parts.
#[verifier::rlimit(40)]
pub proof fn law_written_request_is_read(request: WrittenRequest)
    requires
        request.wf(),
        request.text().len() <= usize::MAX,
    ensures
        request_of(request.text()) == Ok::<RequestModel, VectorizeError>(request.model()),
{
    let model = request.model();
    lemma_sections_found(request);
    lemma_transaction(request);
    lemma_customer(request);
    lemma_merchant(request);
    lemma_terminal(request);
    lemma_last(request);
    lemma_request_of(
        request.text(),
        sections_of(request.text())->0,
        model.transaction,
        (model.customer_avg_amount, model.tx_count_24h, list_text(request.known_merchants, request.known_gaps)),
        (request.merchant_id, request.mcc, model.merchant_avg_amount),
        model.terminal,
        model.last,
    );
}

/// The bytes of names.
pub open spec fn name_bytes(names: Seq<String>) -> Seq<Seq<u8>> {
    Seq::new(names.len(), |i: int| encode_utf8(names[i]@))
}

/// A merchant is found in the list of the known merchants, written as quoted names, exactly
/// if it is one of them; its name is part of no other name.
pub proof fn law_known_merchant_is_found(
    known_merchants: Seq<String>,
    gaps: Seq<Seq<u8>>,
    id: Seq<char>,
)
    requires
        no_quotes(name_bytes(known_merchants)),
        blank(gaps),
        is_word(name_bytes(known_merchants), gaps, encode_utf8(id)),
        stands_alone(name_bytes(known_merchants), encode_utf8(id)),
    ensures
        contains_quoted(list_text(name_bytes(known_merchants), gaps), encode_utf8(id))
            <==> is_known(known_merchants, id),
{
    let names = name_bytes(known_merchants);
    let word = encode_utf8(id);
    law_listed_name_is_found(names, gaps, word);
    encode_utf8_decode_utf8(id);
    if names.contains(word) {
        let i = choose|i: int| 0 <= i < names.len() && names[i] == word;
        encode_utf8_decode_utf8(known_merchants[i]@);
        assert(known_merchants[i]@ == id);
    }
    if is_known(known_merchants, id) {
        let i = choose|i: int|
            0 <= i < known_merchants.len() && (#[trigger] known_merchants[i])@ == id;
        assert(names[i] == word);
    }
}

/// The second within its minute that a text of the form `YYYY-MM-DDThh:mm:ssZ` names.
pub open spec fn second_of(text: Seq<u8>) -> int {
    decimal(text.subrange(17, 19))
}

/// The hour and the day of the week that a timestamp shows.
proof fn lemma_utc_clock(text: Seq<u8>)
    requires
        is_utc_text(text),
    ensures
        utc_timestamp(text).hour == (parts_of(text)->0).hour,
        weekday_number(utc_timestamp(text).weekday) == weekday_of(day_of(parts_of(text)->0)) as u32,
        utc_timestamp(text).nanosecond == 0,
        utc_timestamp(text).unix_seconds == minute_of(parts_of(text)->0) * 60 + second_of(text),
        0 <= second_of(text) < 60,
        -10_000_000_000 <= minute_of(parts_of(text)->0) <= 10_000_000_000,
{
    let parts = parts_of(text)->0;
    lemma_minute_bounds(text);
    lemma_short_decimal(text.subrange(17, 19));
    let day = weekday_of(day_of(parts));
    assert(0 <= day < 7);
    assert(weekday_number(weekday_named(day)) == day);
}

/// The seconds between two timestamps.
proof fn lemma_utc_seconds(requested: Seq<u8>, last: Seq<u8>)
    requires
        is_utc_text(requested),
        is_utc_text(last),
    ensures
        ({
            let minutes = minute_of(parts_of(requested)->0) - minute_of(parts_of(last)->0);
            let elapsed = minutes * 60 + second_of(requested) - second_of(last);
            &&& -20_000_000_000 <= minutes <= 20_000_000_000
            &&& seconds_between(utc_timestamp(requested), utc_timestamp(last)) as u64
                == if elapsed < 0 {
                0
            } else {
                elapsed
            }
        }),
{
    lemma_utc_clock(requested);
    lemma_utc_clock(last);
}

/// The two readings of a request, by its text and by its fields, agree on the hour, the day
/// of the week and whether the merchant is known; and of the time since the last transaction
/// one gives the minutes and the other the seconds, each timestamp's own seconds counted in.
#[verifier::rlimit(40)]
pub proof fn law_readings_agree(
    request: WrittenRequest,
    requested_at: Seq<char>,
    last_timestamp: Option<Seq<char>>,
    known_merchants: Seq<String>,
    merchant_id: Seq<char>,
)
    requires
        request.wf(),
        request.text().len() <= usize::MAX,
        request.requested_at == encode_utf8(requested_at),
        request.known_merchants == name_bytes(known_merchants),
        request.merchant_id == encode_utf8(merchant_id),
        match (request.last, last_timestamp) {
            (Some((timestamp, _)), Some(text)) => timestamp == encode_utf8(text),
            (None, None) => true,
            _ => false,
        },
        has_utc_times(requested_at, last_timestamp),
        is_word(request.known_merchants, request.known_gaps, request.merchant_id),
        stands_alone(request.known_merchants, request.merchant_id),
    ensures
        request_of(request.text()) matches Ok(model) && {
            let facts = utc_facts(
                requested_at,
                last_timestamp,
                is_known(known_merchants, merchant_id),
            );
            &&& model.transaction.hour == facts.hour
            &&& model.transaction.weekday == facts.weekday
            &&& model.known_merchant == facts.known_merchant
            &&& match (model.last, facts.seconds_since_last, last_timestamp) {
                (Some(last), Some(seconds), Some(text)) => {
                    let elapsed = last.minutes * 60 + second_of(encode_utf8(requested_at))
                        - second_of(encode_utf8(text));
                    seconds == if elapsed < 0 {
                        0
                    } else {
                        elapsed
                    }
                },
                (None, None, None) => true,
                _ => false,
            }
        },
{
    assert(no_quotes(request.known_merchants));
    law_known_merchant_is_found(known_merchants, request.known_gaps, merchant_id);
    lemma_utc_clock(request.requested_at);
    if let Some(text) = last_timestamp {
        lemma_utc_seconds(request.requested_at, encode_utf8(text));
    }
    law_written_request_is_read(request);
}

/// A request that is written is read, value by value: numbers as their digits spell them, the
/// minute, hour and day of the week of its timestamp, and of the last transaction how many minutes
/// it lies back.
pub proof fn law_written_values_are_read(request: WrittenRequest)
    requires
        request.wf(),
        request.text().len() <= usize::MAX,
    ensures
        ({
            let spells = |written: Decimal, read: Number|
                {
                    let behind = match written.behind {
                        Some(digits) => digits,
                        None => Seq::<u8>::empty(),
                    };
                    &&& read.negative == written.negative
                    &&& read.whole == decimal(written.whole)
                    &&& read.fraction == decimal(behind)
                    &&& read.scale == pow10(behind.len())
                };
            &&& request_of(request.text()) matches Ok(read)
            &&& spells(request.amount, read.transaction.amount)
            &&& spells(request.installments, read.transaction.installments)
            &&& spells(request.customer_avg_amount, read.customer_avg_amount)
            &&& spells(request.tx_count_24h, read.tx_count_24h)
            &&& spells(request.merchant_avg_amount, read.merchant_avg_amount)
            &&& spells(request.km_from_home, read.terminal.km_from_home)
            &&& read.terminal.is_online == request.is_online
            &&& read.terminal.card_present == request.card_present
            &&& read.mcc == request.mcc
            &&& parts_of(request.requested_at) matches Some(parts)
            &&& read.transaction.requested_minutes == minute_of(parts)
            &&& read.transaction.hour == parts.hour
            &&& read.transaction.weekday == weekday_of(day_of(parts))
            &&& match request.last {
                Some((timestamp, km_from_current)) => {
                    &&& read.last matches Some(last)
                    &&& parts_of(timestamp) matches Some(before)
                    &&& last.minutes == minute_of(parts) - minute_of(before)
                    &&& spells(km_from_current, last.km_from_current)
                },
                None => read.last is None,
            }
        }),
{
    law_written_request_is_read(request);
    lemma_minute_bounds(request.requested_at);
    lemma_number_fits(request.amount);
    lemma_number_fits(request.installments);
    lemma_number_fits(request.customer_avg_amount);
    lemma_number_fits(request.tx_count_24h);
    lemma_number_fits(request.merchant_avg_amount);
    lemma_number_fits(request.km_from_home);
    if let Some((timestamp, km_from_current)) = request.last {
        lemma_minute_bounds(timestamp);
        lemma_number_fits(km_from_current);
    }
}

proof fn lemma_number_fits(number: Decimal)
    requires
        number.plain(),
    ensures
        ({
            let behind = match number.behind {
                Some(digits) => digits,
                None => Seq::<u8>::empty(),
            };
            &&& number.number().whole == decimal(number.whole)
            &&& number.number().fraction == decimal(behind)
            &&& number.number().scale == pow10(behind.len())
        }),
{
    let behind = match number.behind {
        Some(digits) => digits,
        None => Seq::<u8>::empty(),
    };
    law_number_is_read_as_written(number.negative, number.whole, Some(behind), Seq::<u8>::empty());
    let sign = if number.negative {
        seq![0x2du8]
    } else {
        Seq::<u8>::empty()
    };
    let s = sign + number.whole + (seq![0x2eu8] + behind) + Seq::<u8>::empty();
    assert(number_of(s) is Some);
}

/// A known merchant is recognised, in whatever place of the list and with whatever white space,
/// and a merchant that is not listed is not, as long as its name is part of no listed name.
pub proof fn law_written_merchant_is_recognised(request: WrittenRequest)
    requires
        request.wf(),
        request.text().len() <= usize::MAX,
        is_word(request.known_merchants, request.known_gaps, request.merchant_id),
        stands_alone(request.known_merchants, request.merchant_id),
    ensures
        request_of(request.text()) matches Ok(read) && (read.known_merchant
            <==> request.known_merchants.contains(request.merchant_id)),
{
    law_written_request_is_read(request);
    assert(no_quotes(request.known_merchants));
    law_listed_name_is_found(request.known_merchants, request.known_gaps, request.merchant_id);
}

} // verus!
