//! Fields as they are written in JSON, with white space between their parts, and that they
//! are read.

use vstd::prelude::*;
use vstd::string::*;

use crate::quoted::{
    bare_list, blank, comma, from_piece, gap, joined, lemma_joined, lemma_name_found,
    lemma_piece_at, lemma_piece_byte, lemma_piece_quote, lemma_start_grows, list_close, list_open,
    list_pieces, list_text, no_quote, no_quotes, quoted, start_of,
};
use crate::request::{
    after_spaces, array_field, bool_field, bytes_of, field_at, fraction_digits, is_space,
    number_field, number_of, pow10, string_field, unsigned_part, value_at, Number,
};
use crate::text::{
    all_digits, decimal, first_at, is_digit, is_first_at, leading_digits, lemma_digit_count,
    lemma_first_at, occurs_at,
};
use crate::vector::VectorizeError;

verus! {

/// A decimal number as it is written.
pub ghost struct Decimal {
    pub negative: bool,
    /// The digits in front of the point.
    pub whole: Seq<u8>,
    /// The digits behind the point, if there is one.
    pub behind: Option<Seq<u8>>,
}

impl Decimal {
    /// There are digits, and no more of them than can be counted.
    pub open spec fn plain(self) -> bool {
        &&& self.whole.len() > 0
        &&& all_digits(self.whole)
        &&& decimal(self.whole) <= i64::MAX
        &&& self.behind matches Some(digits) ==> all_digits(digits) && digits.len() <= 18
    }

    /// How the number is written.
    pub open spec fn text(self) -> Seq<u8> {
        let sign = if self.negative {
            seq![0x2du8]
        } else {
            Seq::empty()
        };
        let tail = match self.behind {
            Some(digits) => seq![0x2eu8] + digits,
            None => Seq::empty(),
        };
        sign + self.whole + tail
    }

    /// The number that is written.
    pub open spec fn number(self) -> Number {
        let digits = match self.behind {
            Some(digits) => digits,
            None => Seq::empty(),
        };
        Number {
            negative: self.negative,
            whole: decimal(self.whole) as i64,
            fraction: decimal(digits) as i64,
            scale: pow10(digits.len()) as i64,
        }
    }
}

/// A number that is written is read, whatever follows that is no digit and no point.
pub proof fn law_written_decimal_is_read(number: Decimal, more: Seq<u8>)
    requires
        number.plain(),
        more.len() > 0,
        !is_digit(more[0]),
        more[0] != 0x2e,
    ensures
        number_of(number.text() + more) == Some(number.number()),
{
    let s = number.text() + more;
    let t = unsigned_part(s);
    let whole = number.whole;
    let n = whole.len() as int;
    let tail = match number.behind {
        Some(digits) => seq![0x2eu8] + digits,
        None => Seq::empty(),
    };
    assert(is_digit(whole[0]));
    assert(t =~= whole + tail + more) by {
        if number.negative {
            assert(s[0] == 0x2d);
        } else {
            assert(s[0] == whole[0]);
        }
    }
    assert(t.take(n) =~= whole);
    lemma_digit_count(t, n);
    assert(leading_digits(t) =~= whole);
    let rest = t.skip(n);
    assert(rest =~= tail + more);
    match number.behind {
        Some(digits) => {
            let behind = rest.skip(1);
            let k = digits.len() as int;
            assert(rest[0] == 0x2e);
            assert(behind =~= digits + more);
            assert(behind.take(k) =~= digits);
            lemma_digit_count(behind, k);
            assert(leading_digits(behind) =~= digits);
            assert(fraction_digits(rest) == digits);
        },
        None => {
            assert(rest =~= more);
            assert(fraction_digits(rest) =~= Seq::empty());
        },
    }
}

/// A byte that stands between values: white space, or punctuation.
pub open spec fn is_mark(byte: u8) -> bool {
    is_space(byte) || byte == 0x3a || byte == 0x2c || byte == 0x5b || byte == 0x5d || byte == 0x7b
        || byte == 0x7d
}

/// There is something, and all of it stands between values.
pub open spec fn all_marks(s: Seq<u8>) -> bool {
    s.len() > 0 && forall|k: int| 0 <= k < s.len() ==> is_mark(#[trigger] s[k])
}

/// A colon, with the white space at places `i` and `i + 1` around it.
#[verifier::opaque]
pub open spec fn colon(gaps: Seq<Seq<u8>>, i: int) -> Seq<u8> {
    gap(gaps, i) + seq![0x3au8] + gap(gaps, i + 1)
}

/// An opening brace, with the white space at place `i` behind it.
#[verifier::opaque]
pub open spec fn opening(gaps: Seq<Seq<u8>>, i: int) -> Seq<u8> {
    seq![0x7bu8] + gap(gaps, i)
}

/// A closing brace and a comma, with the white space at places `i` to `i + 2` around them.
#[verifier::opaque]
pub open spec fn closing(gaps: Seq<Seq<u8>>, i: int) -> Seq<u8> {
    gap(gaps, i) + seq![0x7du8] + comma(gaps, i + 1)
}

/// Two closing braces, with the white space at places `i` to `i + 2` around them.
#[verifier::opaque]
pub open spec fn ending(gaps: Seq<Seq<u8>>, i: int) -> Seq<u8> {
    gap(gaps, i) + seq![0x7du8] + gap(gaps, i + 1) + seq![0x7du8] + gap(gaps, i + 2)
}

/// White space holds nothing else.
pub proof fn lemma_gap(gaps: Seq<Seq<u8>>, i: int)
    requires
        blank(gaps),
    ensures
        forall|k: int| 0 <= k < gap(gaps, i).len() ==> is_space(#[trigger] gap(gaps, i)[k]),
{
}

/// What stands between values holds only marks.
pub proof fn lemma_marks(gaps: Seq<Seq<u8>>, i: int)
    requires
        blank(gaps),
    ensures
        all_marks(colon(gaps, i)),
        all_marks(comma(gaps, i)),
        all_marks(opening(gaps, i)),
        all_marks(closing(gaps, i)),
        all_marks(ending(gaps, i)),
{
    reveal(colon);
    reveal(comma);
    reveal(opening);
    reveal(closing);
    reveal(ending);
    lemma_gap(gaps, i);
    lemma_gap(gaps, i + 1);
    lemma_gap(gaps, i + 2);
    assert(all_marks(comma(gaps, i + 1)));
}

/// Marks one after the other.
pub proof fn lemma_marks_joined(a: Seq<u8>, b: Seq<u8>)
    requires
        all_marks(a),
        forall|k: int| 0 <= k < b.len() ==> is_mark(#[trigger] b[k]),
    ensures
        all_marks(a + b),
{
}

/// Marks are no quotes.
pub proof fn lemma_marks_no_quote(s: Seq<u8>)
    requires
        all_marks(s),
    ensures
        no_quote(s),
        !is_digit(s[0]),
        s[0] != 0x2e,
        !(0x61 <= s[0] <= 0x7a),
{
    assert(is_mark(s[0]));
}

/// Byte `k` is the colon, and all others are white space.
spec fn colon_at(s: Seq<u8>, k: int) -> bool {
    &&& 0 <= k < s.len()
    &&& s[k] == 0x3a
    &&& forall|j: int| 0 <= j < s.len() && j != k ==> is_space(#[trigger] s[j])
}

/// A colon with white space around it.
pub closed spec fn is_colon(s: Seq<u8>) -> bool {
    exists|k: int| #[trigger] colon_at(s, k)
}

pub proof fn lemma_colon(gaps: Seq<Seq<u8>>, i: int)
    requires
        blank(gaps),
    ensures
        is_colon(colon(gaps, i)),
{
    reveal(colon);
    lemma_gap(gaps, i);
    lemma_gap(gaps, i + 1);
    assert(colon_at(colon(gaps, i), gap(gaps, i).len() as int));
}

/// Piece `i` is the first from `lo` on that is `name`, and behind it a colon and a value
/// follow.
pub open spec fn is_field(
    pieces: Seq<Seq<u8>>,
    name: Seq<u8>,
    lo: int,
    i: int,
    between: Seq<u8>,
    value: Seq<u8>,
) -> bool {
    &&& no_quotes(pieces)
    &&& 0 <= lo <= i
    &&& 1 <= i < pieces.len() - 1
    &&& pieces[i] == name
    &&& forall|j: int| lo <= j < i && 1 <= j ==> #[trigger] pieces[j] != name
    &&& forall|k: int| 0 <= k < name.len() ==> #[trigger] name[k] != 0x3a
    &&& is_colon(between)
    &&& pieces[i + 1] == between + value
}

/// Where white space ends.
proof fn lemma_after_spaces(text: Seq<u8>, from: int, to: int)
    requires
        0 <= from <= to < text.len(),
        forall|p: int| from <= p < to ==> is_space(#[trigger] text[p]),
        !is_space(text[to]),
    ensures
        after_spaces(text, from) == to,
    decreases to - from,
{
    if from < to {
        lemma_after_spaces(text, from + 1, to);
    }
}

/// Where the colon behind a name stands, and where its white space ends.
proof fn lemma_colon_found(pieces: Seq<Seq<u8>>, i: int, between: Seq<u8>, value: Seq<u8>, k: int)
    requires
        1 <= i < pieces.len() - 1,
        forall|x: int| 0 <= x < pieces[i].len() ==> #[trigger] pieces[i][x] != 0x3a,
        pieces[i + 1] == between + value,
        colon_at(between, k),
    ensures
        0 < start_of(pieces, i),
        first_at(joined(pieces), seq![0x3au8], start_of(pieces, i) - 1) == Some(
            start_of(pieces, i + 1) + k,
        ),
        0 <= start_of(pieces, i + 1),
        start_of(pieces, i + 1) + between.len() <= joined(pieces).len(),
        forall|p: int|
            start_of(pieces, i + 1) + k < p < start_of(pieces, i + 1) + between.len() ==> is_space(
                #[trigger] joined(pieces)[p],
            ),
{
    let text = joined(pieces);
    let at = start_of(pieces, i) - 1;
    let next = start_of(pieces, i + 1);
    let name = pieces[i];
    lemma_start_grows(pieces, i, i + 1);
    assert(next == at + 1 + name.len() + 1);
    lemma_piece_quote(pieces, i);
    lemma_piece_quote(pieces, i + 1);
    assert forall|x: int| 0 <= x < between.len() implies text[next + x] == #[trigger] between[x] by {
        lemma_piece_byte(pieces, i + 1, x);
    }
    lemma_piece_byte(pieces, i + 1, between.len() - 1);
    assert(text[next + k] == between[k]);
    assert(text.subrange(next + k, next + k + 1) =~= seq![0x3au8]);
    assert forall|p: int| at <= p < next + k implies !#[trigger] occurs_at(
        text,
        seq![0x3au8],
        p,
    ) by {
        if at < p < next - 1 {
            lemma_piece_byte(pieces, i, p - at - 1);
        } else if next <= p {
            assert(text[next + (p - next)] == between[p - next]);
        }
        assert(text.subrange(p, p + 1)[0] == text[p]);
    }
    assert(is_first_at(text, seq![0x3au8], at, next + k));
    lemma_first_at(text, seq![0x3au8], at, next + k);
    assert forall|p: int| next + k < p < next + between.len() implies is_space(
        #[trigger] text[p],
    ) by {
        assert(text[next + (p - next)] == between[p - next]);
    }
}

/// Where the value of a field starts: behind the colon and its white space.
pub proof fn lemma_field(
    pieces: Seq<Seq<u8>>,
    name: Seq<u8>,
    lo: int,
    i: int,
    between: Seq<u8>,
    value: Seq<u8>,
)
    requires
        is_field(pieces, name, lo, i, between, value),
        value.len() > 0 ==> !is_space(value[0]),
        value.len() == 0 ==> i + 2 < pieces.len(),
    ensures
        value_at(joined(pieces), start_of(pieces, i) - 1) == Some(
            start_of(pieces, i + 1) + between.len() as int,
        ),
        field_at(joined(pieces), from_piece(pieces, lo), quoted(name)) == Some(
            start_of(pieces, i + 1) + between.len() as int,
        ),
        0 <= start_of(pieces, i + 1),
        start_of(pieces, i + 1) + between.len() < joined(pieces).len(),
{
    let text = joined(pieces);
    let next = start_of(pieces, i + 1);
    let end = next + between.len();
    let k = choose|k: int| #[trigger] colon_at(between, k);
    lemma_colon_found(pieces, i, between, value, k);
    lemma_name_found(pieces, name, lo, i);
    if value.len() > 0 {
        lemma_piece_byte(pieces, i + 1, between.len() as int);
    } else {
        assert(start_of(pieces, i + 2) == end + 1);
        lemma_piece_quote(pieces, i + 2);
    }
    lemma_after_spaces(text, next + k + 1, end);
}

/// The bytes of a piece from byte `n` on.
proof fn lemma_rest_of_piece(pieces: Seq<Seq<u8>>, i: int, n: int)
    requires
        0 <= i < pieces.len(),
        0 <= n < pieces[i].len(),
    ensures
        0 <= start_of(pieces, i),
        start_of(pieces, i) + pieces[i].len() <= joined(pieces).len(),
        joined(pieces).skip(start_of(pieces, i) + n) == pieces[i].skip(n) + joined(pieces).skip(
            start_of(pieces, i) + pieces[i].len(),
        ),
{
    let text = joined(pieces);
    let start = start_of(pieces, i);
    let size = pieces[i].len() as int;
    lemma_start_grows(pieces, i, i);
    lemma_piece_byte(pieces, i, size - 1);
    let one = text.skip(start + n);
    let other = pieces[i].skip(n) + text.skip(start + size);
    assert forall|k: int| 0 <= k < one.len() implies one[k] == other[k] by {
        if k < size - n {
            lemma_piece_byte(pieces, i, k + n);
        }
    }
    assert(one =~= other);
}

/// A piece stands whole in the text, and the next quote ends it.
proof fn lemma_piece_text(pieces: Seq<Seq<u8>>, i: int)
    requires
        no_quotes(pieces),
        1 <= i < pieces.len() - 1,
    ensures
        0 < start_of(pieces, i),
        start_of(pieces, i) + pieces[i].len() < joined(pieces).len(),
        joined(pieces)[start_of(pieces, i) - 1] == 0x22,
        joined(pieces).subrange(start_of(pieces, i), start_of(pieces, i) + pieces[i].len())
            == pieces[i],
        first_at(joined(pieces), seq![0x22u8], start_of(pieces, i)) == Some(
            start_of(pieces, i) + pieces[i].len() as int,
        ),
{
    let text = joined(pieces);
    let start = start_of(pieces, i);
    let piece = pieces[i];
    let end = start + piece.len();
    assert(start_of(pieces, i + 1) == end + 1);
    lemma_piece_quote(pieces, i);
    lemma_piece_quote(pieces, i + 1);
    assert forall|k: int| 0 <= k < piece.len() implies text[start + k] == piece[k] by {
        lemma_piece_byte(pieces, i, k);
    }
    assert(text.subrange(start, end) =~= piece);
    assert(no_quote(piece));
    assert(text.subrange(end, end + 1) =~= seq![0x22u8]);
    assert forall|p: int| start <= p < end implies !#[trigger] occurs_at(text, seq![0x22u8], p) by {
        assert(piece[p - start] != 0x22);
        assert(text[start + (p - start)] == piece[p - start]);
        assert(text.subrange(p, p + 1)[0] == text[p]);
    }
    assert(is_first_at(text, seq![0x22u8], start, end));
    lemma_first_at(text, seq![0x22u8], start, end);
}

/// The text in a field is the piece behind the colon.
/// The text in a field is the piece behind the colon.
pub proof fn lemma_string_field(
    pieces: Seq<Seq<u8>>,
    name: Seq<u8>,
    lo: int,
    i: int,
    between: Seq<u8>,
)
    requires
        is_field(pieces, name, lo, i, between, Seq::empty()),
        i + 3 < pieces.len(),
    ensures
        string_field(joined(pieces), from_piece(pieces, lo), quoted(name)) == Ok::<
            Seq<u8>,
            VectorizeError,
        >(pieces[i + 2]),
{
    lemma_field(pieces, name, lo, i, between, Seq::empty());
    assert(pieces[i + 1] =~= between);
    assert(start_of(pieces, i + 2) == start_of(pieces, i + 1) + between.len() + 1);
    lemma_piece_text(pieces, i + 2);
}

/// The number in a field is the one behind the colon.
pub proof fn lemma_number_field(
    pieces: Seq<Seq<u8>>,
    name: Seq<u8>,
    lo: int,
    i: int,
    between: Seq<u8>,
    number: Decimal,
    more: Seq<u8>,
)
    requires
        is_field(pieces, name, lo, i, between, number.text() + more),
        number.plain(),
        all_marks(more),
    ensures
        number_field(joined(pieces), from_piece(pieces, lo), quoted(name)) == Ok::<
            Number,
            VectorizeError,
        >(number.number()),
{
    let piece = pieces[i + 1];
    let value = number.text() + more;
    let n = between.len() as int;
    assert(is_digit(number.whole[0]));
    assert(value[0] == if number.negative {
        0x2du8
    } else {
        number.whole[0]
    });
    lemma_marks_no_quote(more);
    lemma_field(pieces, name, lo, i, between, value);
    lemma_rest_of_piece(pieces, i + 1, n);
    let after = joined(pieces).skip(start_of(pieces, i + 1) + piece.len());
    assert(piece.skip(n) =~= value);
    assert(value + after =~= number.text() + (more + after));
    law_written_decimal_is_read(number, more + after);
}

/// Which word stands behind the first `n` bytes of a piece.
pub proof fn lemma_word_at_value(pieces: Seq<Seq<u8>>, i: int, n: int, word: Seq<u8>)
    requires
        0 <= i < pieces.len(),
        word.len() > 0,
        0 <= n < pieces[i].len(),
    ensures
        n + word.len() <= pieces[i].len() && pieces[i].subrange(n, n + word.len()) == word
            ==> occurs_at(joined(pieces), word, start_of(pieces, i) + n),
        pieces[i][n] != word[0] ==> !occurs_at(joined(pieces), word, start_of(pieces, i) + n),
{
    let text = joined(pieces);
    let at = start_of(pieces, i) + n;
    lemma_rest_of_piece(pieces, i, n);
    let behind = text.skip(at);
    if n + word.len() <= pieces[i].len() && pieces[i].subrange(n, n + word.len()) == word {
        assert forall|k: int| 0 <= k < word.len() implies text.subrange(at, at + word.len())[k]
            == word[k] by {
            assert(behind[k] == pieces[i].skip(n)[k]);
            assert(pieces[i].subrange(n, n + word.len())[k] == word[k]);
        }
        assert(text.subrange(at, at + word.len()) =~= word);
    }
    if pieces[i][n] != word[0] {
        assert(behind[0] == pieces[i].skip(n)[0]);
        if occurs_at(text, word, at) {
            assert(text.subrange(at, at + word.len())[0] == word[0]);
        }
    }
}

/// What a literal holds, byte by byte.
pub proof fn lemma_literal(text: &str)
    requires
        vstd::utf8::is_ascii_chars(text@),
    ensures
        bytes_of(text).len() == text@.len(),
        forall|i: int| 0 <= i < text@.len() ==> #[trigger] bytes_of(text)[i] == text@[i] as u8,
{
    vstd::utf8::is_ascii_chars_encode_utf8(text@);
}

/// How a truth value is written.
pub open spec fn bool_text(value: bool) -> Seq<u8> {
    if value {
        bytes_of("true")
    } else {
        bytes_of("false")
    }
}

/// The truth value in a field is the one behind the colon.
pub proof fn lemma_bool_field(
    pieces: Seq<Seq<u8>>,
    name: Seq<u8>,
    lo: int,
    i: int,
    between: Seq<u8>,
    value: bool,
    more: Seq<u8>,
)
    requires
        is_field(pieces, name, lo, i, between, bool_text(value) + more),
    ensures
        bool_field(joined(pieces), from_piece(pieces, lo), quoted(name)) == Ok::<
            bool,
            VectorizeError,
        >(value),
{
    let piece = pieces[i + 1];
    let n = between.len() as int;
    reveal_strlit("true");
    reveal_strlit("false");
    lemma_literal("true");
    lemma_literal("false");
    let word = bool_text(value);
    assert((word + more)[0] == word[0]);
    assert(piece[n] == word[0]);
    assert(piece.subrange(n, n + word.len()) =~= word);
    lemma_field(pieces, name, lo, i, between, word + more);
    lemma_word_at_value(pieces, i + 1, n, bytes_of("true"));
    lemma_word_at_value(pieces, i + 1, n, bytes_of("false"));
}

/// The pieces of a list with `front` in front of it and `more` behind it.
pub open spec fn list_between(
    names: Seq<Seq<u8>>,
    gaps: Seq<Seq<u8>>,
    front: Seq<u8>,
    more: Seq<u8>,
) -> Seq<Seq<u8>> {
    list_pieces(names, gaps, front + list_open(gaps), list_close(gaps) + more)
}

/// The pieces from `i` on are those of a list.
pub open spec fn is_list(
    pieces: Seq<Seq<u8>>,
    i: int,
    names: Seq<Seq<u8>>,
    gaps: Seq<Seq<u8>>,
    front: Seq<u8>,
    more: Seq<u8>,
) -> bool {
    let list = list_between(names, gaps, front, more);
    &&& 0 <= i
    &&& i + list.len() <= pieces.len()
    &&& forall|j: int| 0 <= j < list.len() ==> #[trigger] pieces[i + j] == list[j]
}

/// How the pieces of a list lie in those with something around it.
proof fn lemma_list_between(
    names: Seq<Seq<u8>>,
    gaps: Seq<Seq<u8>>,
    front: Seq<u8>,
    more: Seq<u8>,
    j: int,
)
    requires
        0 <= j < bare_list(names, gaps).len(),
    ensures
        list_between(names, gaps, front, more).len() == bare_list(names, gaps).len(),
        ({
            let inner = bare_list(names, gaps)[j];
            let outer = list_between(names, gaps, front, more)[j];
            let shift = if j == 0 {
                front.len() as int
            } else {
                0
            };
            &&& outer.len() >= shift + inner.len()
            &&& j < bare_list(names, gaps).len() - 1 ==> outer.len() == shift + inner.len()
            &&& forall|k: int|
                0 <= k < inner.len() ==> #[trigger] inner[k] == outer[k + shift]
        }),
{
}

/// Where the pieces of a list start in the text around it.
proof fn lemma_list_start(
    pieces: Seq<Seq<u8>>,
    i: int,
    names: Seq<Seq<u8>>,
    gaps: Seq<Seq<u8>>,
    front: Seq<u8>,
    more: Seq<u8>,
    j: int,
)
    requires
        is_list(pieces, i, names, gaps, front, more),
        1 <= j < bare_list(names, gaps).len(),
    ensures
        start_of(bare_list(names, gaps), j) == start_of(pieces, i + j) - start_of(pieces, i)
            - front.len(),
    decreases j,
{
    let inner = bare_list(names, gaps);
    lemma_list_between(names, gaps, front, more, j - 1);
    assert(pieces[i + (j - 1)] == list_between(names, gaps, front, more)[j - 1]);
    assert(start_of(pieces, i + j) == start_of(pieces, i + j - 1) + pieces[i + j - 1].len() + 1);
    assert(start_of(inner, j) == start_of(inner, j - 1) + inner[j - 1].len() + 1);
    if j > 1 {
        lemma_list_start(pieces, i, names, gaps, front, more, j - 1);
    }
}

/// How long the text of a list is.
proof fn lemma_list_length(names: Seq<Seq<u8>>, gaps: Seq<Seq<u8>>)
    ensures
        bare_list(names, gaps).len() > 0,
        ({
            let inner = bare_list(names, gaps);
            list_text(names, gaps).len() == start_of(inner, inner.len() - 1) + inner.last().len()
        }),
{
    let inner = bare_list(names, gaps);
    let last = inner.len() - 1;
    lemma_joined(inner);
    assert(start_of(inner, last + 1) == start_of(inner, last) + inner[last].len() + 1);
}

/// Byte `p` of the text of a list, in the text around it.
proof fn lemma_list_byte(
    pieces: Seq<Seq<u8>>,
    i: int,
    names: Seq<Seq<u8>>,
    gaps: Seq<Seq<u8>>,
    front: Seq<u8>,
    more: Seq<u8>,
    p: int,
)
    requires
        is_list(pieces, i, names, gaps, front, more),
        0 <= p < list_text(names, gaps).len(),
    ensures
        0 <= start_of(pieces, i),
        start_of(pieces, i) + front.len() + p < joined(pieces).len(),
        joined(pieces)[start_of(pieces, i) + front.len() + p] == list_text(names, gaps)[p],
{
    let inner = bare_list(names, gaps);
    let outer = list_between(names, gaps, front, more);
    lemma_list_length(names, gaps);
    lemma_start_grows(pieces, i, i);
    let j = lemma_piece_at(inner, p);
    lemma_list_between(names, gaps, front, more, j);
    assert(pieces[i + j] == outer[j]);
    if j > 0 {
        lemma_list_start(pieces, i, names, gaps, front, more, j);
    }
    if p < start_of(inner, j) {
        lemma_piece_quote(inner, j);
        lemma_piece_quote(pieces, i + j);
    } else {
        let k = p - start_of(inner, j);
        lemma_piece_byte(inner, j, k);
        if j == 0 {
            assert(inner[0][k] == outer[0][k + front.len()]);
            lemma_piece_byte(pieces, i, k + front.len());
        } else {
            assert(inner[j][k] == outer[j][k + 0]);
            lemma_piece_byte(pieces, i + j, k);
        }
    }
}

/// The name holds no closing bracket.
pub open spec fn no_bracket(name: Seq<u8>) -> bool {
    forall|i: int| 0 <= i < name.len() ==> #[trigger] name[i] != 0x5d
}

/// A list starts with a bracket, and the only closing bracket ends it.
proof fn lemma_list_brackets(names: Seq<Seq<u8>>, gaps: Seq<Seq<u8>>, p: int)
    requires
        blank(gaps),
        forall|k: int| 0 <= k < names.len() ==> no_bracket(#[trigger] names[k]),
        0 <= p < list_text(names, gaps).len(),
    ensures
        list_text(names, gaps).len() >= 2,
        list_text(names, gaps)[0] == 0x5b,
        list_text(names, gaps)[p] == 0x5d <==> p == list_text(names, gaps).len() - 1,
{
    let inner = bare_list(names, gaps);
    let list = list_text(names, gaps);
    let last = inner.len() - 1;
    lemma_list_length(names, gaps);
    lemma_gap(gaps, 0);
    lemma_gap(gaps, 1);
    lemma_start_grows(inner, 0, last);
    lemma_piece_byte(inner, 0, 0);
    lemma_piece_byte(inner, last, inner[last].len() - 1);
    let j = lemma_piece_at(inner, p);
    lemma_start_grows(inner, j, last);
    if p < start_of(inner, j) {
        lemma_piece_quote(inner, j);
    } else {
        let k = p - start_of(inner, j);
        lemma_piece_byte(inner, j, k);
        if names.len() > 0 && j % 2 == 1 {
            assert(inner[j] == names[j / 2]);
            assert(no_bracket(names[j / 2]));
        } else if 0 < j < last {
            assert(inner[j] == comma(gaps, j));
            reveal(comma);
            lemma_gap(gaps, j);
            lemma_gap(gaps, j + 1);
        }
    }
}

/// The list in a field is the one behind the colon.
pub proof fn lemma_array_field(
    pieces: Seq<Seq<u8>>,
    name: Seq<u8>,
    lo: int,
    i: int,
    names: Seq<Seq<u8>>,
    gaps: Seq<Seq<u8>>,
    between: Seq<u8>,
    more: Seq<u8>,
)
    requires
        is_field(pieces, name, lo, i, between, pieces[i + 1].skip(between.len() as int)),
        is_list(pieces, i + 1, names, gaps, between, more),
        blank(gaps),
        forall|k: int| 0 <= k < names.len() ==> no_bracket(#[trigger] names[k]),
    ensures
        array_field(joined(pieces), from_piece(pieces, lo), quoted(name)) == Ok::<
            Seq<u8>,
            VectorizeError,
        >(list_text(names, gaps)),
{
    let text = joined(pieces);
    let list = list_text(names, gaps);
    let start = start_of(pieces, i + 1) + between.len();
    lemma_list_length(names, gaps);
    assert(list.len() > 0) by {
        lemma_piece_byte(bare_list(names, gaps), 0, 0);
    }
    let end = start + list.len() - 1;
    lemma_list_brackets(names, gaps, list.len() - 1);
    lemma_list_byte(pieces, i + 1, names, gaps, between, more, 0);
    lemma_list_byte(pieces, i + 1, names, gaps, between, more, list.len() - 1);
    let value = pieces[i + 1].skip(between.len() as int);
    assert(value.len() > 0 && value[0] == 0x5b) by {
        lemma_list_between(names, gaps, between, more, 0);
        assert(pieces[i + 1 + 0] == list_between(names, gaps, between, more)[0]);
        assert(bare_list(names, gaps)[0][0] == 0x5b);
    }
    lemma_field(pieces, name, lo, i, between, value);
    assert(text.subrange(start, end + 1) =~= list) by {
        assert forall|p: int| 0 <= p < list.len() implies text[start + p] == list[p] by {
            lemma_list_byte(pieces, i + 1, names, gaps, between, more, p);
        }
    }
    assert(text.subrange(end, end + 1) =~= seq![0x5du8]);
    assert forall|p: int| start + 1 <= p < end implies !#[trigger] occurs_at(
        text,
        seq![0x5du8],
        p,
    ) by {
        lemma_list_brackets(names, gaps, p - start);
        lemma_list_byte(pieces, i + 1, names, gaps, between, more, p - start);
        assert(text.subrange(p, p + 1)[0] == text[p]);
    }
    assert(is_first_at(text, seq![0x5du8], start + 1, end));
    lemma_first_at(text, seq![0x5du8], start + 1, end);
}

} // verus!
