//! Texts as pieces between quotes, and where a quoted name stands in them.

use vstd::prelude::*;

use crate::request::{contains_quoted, is_space};
use crate::text::{first_at, is_first_at, lemma_first_at, lemma_no_first_at, occurs_at};

verus! {

/// The pieces one after the other, with a quote between any two.
pub open spec fn joined(pieces: Seq<Seq<u8>>) -> Seq<u8>
    decreases pieces.len(),
{
    if pieces.len() == 0 {
        Seq::empty()
    } else if pieces.len() == 1 {
        pieces[0]
    } else {
        joined(pieces.drop_last()) + seq![0x22u8] + pieces.last()
    }
}

/// Where piece `i` starts.
pub open spec fn start_of(pieces: Seq<Seq<u8>>, i: int) -> int
    decreases i,
{
    if i <= 0 {
        0
    } else {
        start_of(pieces, i - 1) + pieces[i - 1].len() + 1
    }
}

/// The bytes hold no quote.
pub open spec fn no_quote(s: Seq<u8>) -> bool {
    forall|i: int| 0 <= i < s.len() ==> #[trigger] s[i] != 0x22
}

/// No piece holds a quote.
pub open spec fn no_quotes(pieces: Seq<Seq<u8>>) -> bool {
    forall|i: int| 0 <= i < pieces.len() ==> no_quote(#[trigger] pieces[i])
}

/// A name between quotes.
pub open spec fn quoted(name: Seq<u8>) -> Seq<u8> {
    seq![0x22u8] + name + seq![0x22u8]
}

proof fn lemma_start_prefix(pieces: Seq<Seq<u8>>, i: int)
    requires
        pieces.len() > 0,
        0 <= i < pieces.len(),
    ensures
        start_of(pieces.drop_last(), i) == start_of(pieces, i),
    decreases i,
{
    if i > 0 {
        lemma_start_prefix(pieces, i - 1);
    }
}

/// How long the text is, and where its last piece stands.
proof fn lemma_joined_length(pieces: Seq<Seq<u8>>)
    requires
        pieces.len() > 0,
    ensures
        joined(pieces).len() == start_of(pieces, pieces.len() as int) - 1,
    decreases pieces.len(),
{
    let n = pieces.len() as int;
    assert(start_of(pieces, n) == start_of(pieces, n - 1) + pieces[n - 1].len() + 1);
    if n > 1 {
        lemma_joined_length(pieces.drop_last());
        lemma_start_prefix(pieces, n - 1);
    }
}

/// Byte `k` of piece `i` stands at its place.
pub proof fn lemma_piece_byte(pieces: Seq<Seq<u8>>, i: int, k: int)
    requires
        0 <= i < pieces.len(),
        0 <= k < pieces[i].len(),
    ensures
        0 <= start_of(pieces, i) + k < joined(pieces).len(),
        joined(pieces)[start_of(pieces, i) + k] == pieces[i][k],
    decreases pieces.len(),
{
    let n = pieces.len() as int;
    lemma_joined_length(pieces);
    assert(start_of(pieces, n) == start_of(pieces, n - 1) + pieces[n - 1].len() + 1);
    if n > 1 {
        let less = pieces.drop_last();
        lemma_joined_length(less);
        lemma_start_prefix(pieces, n - 1);
        lemma_start_prefix(pieces, i);
        if i < n - 1 {
            lemma_piece_byte(less, i, k);
        } else {
            lemma_start_grows(pieces, 0, i);
        }
    }
}

/// A quote stands in front of every piece but the first.
pub proof fn lemma_piece_quote(pieces: Seq<Seq<u8>>, i: int)
    requires
        1 <= i < pieces.len(),
    ensures
        1 <= start_of(pieces, i) <= joined(pieces).len(),
        joined(pieces)[start_of(pieces, i) - 1] == 0x22,
    decreases pieces.len(),
{
    let n = pieces.len() as int;
    let less = pieces.drop_last();
    lemma_joined_length(less);
    lemma_start_prefix(pieces, n - 1);
    lemma_start_prefix(pieces, i);
    if i < n - 1 {
        lemma_piece_quote(less, i);
    } else {
        lemma_start_grows(pieces, 0, i);
    }
}

/// Where pieces and quotes stand.
pub proof fn lemma_joined(pieces: Seq<Seq<u8>>)
    requires
        pieces.len() > 0,
    ensures
        joined(pieces).len() == start_of(pieces, pieces.len() as int) - 1,
        forall|i: int, k: int|
            #![trigger pieces[i][k]]
            0 <= i < pieces.len() && 0 <= k < pieces[i].len() ==> joined(pieces)[start_of(pieces, i)
                + k] == pieces[i][k],
        forall|i: int|
            #![trigger start_of(pieces, i)]
            1 <= i < pieces.len() ==> 1 <= start_of(pieces, i) <= joined(pieces).len()
                && joined(pieces)[start_of(pieces, i) - 1] == 0x22,
{
    lemma_joined_length(pieces);
    assert forall|i: int, k: int|
        #![trigger pieces[i][k]]
        0 <= i < pieces.len() && 0 <= k < pieces[i].len() implies joined(pieces)[start_of(pieces, i)
        + k] == pieces[i][k] by {
        lemma_piece_byte(pieces, i, k);
    }
    assert forall|i: int|
        #![trigger start_of(pieces, i)]
        1 <= i < pieces.len() implies 1 <= start_of(pieces, i) <= joined(pieces).len()
        && joined(pieces)[start_of(pieces, i) - 1] == 0x22 by {
        lemma_piece_quote(pieces, i);
    }
}

/// Later pieces start later.
pub proof fn lemma_start_grows(pieces: Seq<Seq<u8>>, i: int, j: int)
    requires
        0 <= i <= j,
    ensures
        i <= start_of(pieces, i),
        start_of(pieces, i) + (j - i) <= start_of(pieces, j),
        i < j ==> start_of(pieces, i) + pieces[i].len() < start_of(pieces, j),
    decreases j,
{
    if i < j {
        lemma_start_grows(pieces, i, j - 1);
    } else if i > 0 {
        lemma_start_grows(pieces, i - 1, i - 1);
    }
}

/// The piece in which position `p` lies, or whose opening quote it is.
pub proof fn lemma_piece_at(pieces: Seq<Seq<u8>>, p: int) -> (i: int)
    requires
        pieces.len() > 0,
        0 <= p < joined(pieces).len(),
    ensures
        0 <= i < pieces.len(),
        start_of(pieces, i) <= p < start_of(pieces, i) + pieces[i].len() || (i > 0 && p == start_of(
            pieces,
            i,
        ) - 1),
    decreases pieces.len(),
{
    let n = pieces.len() as int;
    lemma_joined(pieces);
    lemma_start_prefix(pieces, n - 1);
    assert(start_of(pieces, n) == start_of(pieces, n - 1) + pieces[n - 1].len() + 1);
    if p >= start_of(pieces, n - 1) - 1 && n > 1 || n == 1 {
        n - 1
    } else {
        let less = pieces.drop_last();
        lemma_joined(less);
        let i = lemma_piece_at(less, p);
        lemma_start_prefix(pieces, i);
        i
    }
}

/// A name between quotes stands only where a piece between two quotes is that name.
pub proof fn lemma_quoted_at(pieces: Seq<Seq<u8>>, name: Seq<u8>, p: int) -> (i: int)
    requires
        pieces.len() > 0,
        no_quotes(pieces),
        no_quote(name),
        occurs_at(joined(pieces), quoted(name), p),
    ensures
        1 <= i < pieces.len() - 1,
        p == start_of(pieces, i) - 1,
        pieces[i] == name,
{
    let text = joined(pieces);
    let n = pieces.len() as int;
    let len = name.len() as int;
    let there = text.subrange(p, p + len + 2);
    assert(there == quoted(name));
    assert(there[0] == 0x22 && there[len + 1] == 0x22);
    assert forall|k: int| 0 <= k < len implies text[p + 1 + k] == name[k] by {
        assert(there[k + 1] == quoted(name)[k + 1]);
    }
    lemma_joined(pieces);
    let i = lemma_piece_at(pieces, p);
    if start_of(pieces, i) <= p {
        let k = p - start_of(pieces, i);
        assert(no_quote(pieces[i]));
        assert(pieces[i][k] != 0x22);
        assert(false);
    }
    let size = pieces[i].len() as int;
    assert(start_of(pieces, i + 1) == start_of(pieces, i) + size + 1);
    if len < size {
        assert(no_quote(pieces[i]));
        assert(pieces[i][len] != 0x22);
        assert(false);
    }
    if i == n - 1 {
        assert(text.len() == start_of(pieces, i) + size);
        assert(false);
    }
    if len > size {
        assert(text[start_of(pieces, i + 1) - 1] == 0x22);
        assert(text[p + 1 + size] == name[size]);
        assert(false);
    }
    assert forall|k: int| 0 <= k < len implies pieces[i][k] == name[k] by {
        assert(text[start_of(pieces, i) + k] == pieces[i][k]);
        assert(text[p + 1 + k] == name[k]);
    }
    assert(pieces[i] =~= name);
    i
}

/// A piece between two quotes is a name that stands there.
pub proof fn lemma_piece_is_quoted(pieces: Seq<Seq<u8>>, i: int)
    requires
        1 <= i < pieces.len() - 1,
    ensures
        occurs_at(joined(pieces), quoted(pieces[i]), start_of(pieces, i) - 1),
{
    lemma_joined(pieces);
    let name = pieces[i];
    let p = start_of(pieces, i) - 1;
    assert(start_of(pieces, i + 1) == start_of(pieces, i) + name.len() + 1);
    assert(joined(pieces)[start_of(pieces, i + 1) - 1] == 0x22);
    let there = joined(pieces).subrange(p, p + name.len() + 2);
    assert forall|k: int| 0 <= k < there.len() implies there[k] == quoted(name)[k] by {
        if 1 <= k <= name.len() {
            assert(pieces[i][k - 1] == name[k - 1]);
        }
    }
    assert(there =~= quoted(name));
}

/// The position from which on pieces from `lo` on are looked at.
pub open spec fn from_piece(pieces: Seq<Seq<u8>>, lo: int) -> int {
    if lo <= 0 {
        0
    } else {
        start_of(pieces, lo) - 1
    }
}

/// The first piece from `lo` on that is `name` is where the quoted name is found.
pub proof fn lemma_name_found(pieces: Seq<Seq<u8>>, name: Seq<u8>, lo: int, i: int)
    requires
        no_quotes(pieces),
        0 <= lo <= i,
        1 <= i < pieces.len() - 1,
        pieces[i] == name,
        forall|j: int| lo <= j < i && 1 <= j ==> #[trigger] pieces[j] != name,
    ensures
        first_at(joined(pieces), quoted(name), from_piece(pieces, lo)) == Some(
            start_of(pieces, i) - 1,
        ),
{
    let text = joined(pieces);
    let at = start_of(pieces, i) - 1;
    let from = from_piece(pieces, lo);
    assert(no_quote(pieces[i]));
    lemma_piece_is_quoted(pieces, i);
    lemma_start_grows(pieces, lo, i);
    lemma_start_grows(pieces, 0, i);
    assert forall|p: int| from <= p < at implies !#[trigger] occurs_at(text, quoted(name), p) by {
        if occurs_at(text, quoted(name), p) {
            let j = lemma_quoted_at(pieces, name, p);
            if j >= i {
                lemma_start_grows(pieces, i, j);
            } else if j < lo {
                lemma_start_grows(pieces, j, lo);
            }
        }
    }
    assert(is_first_at(text, quoted(name), from, at));
    lemma_first_at(text, quoted(name), from, at);
}

/// A word without quotes lies within one piece.
pub proof fn lemma_word_within(pieces: Seq<Seq<u8>>, word: Seq<u8>, p: int) -> (i: int)
    requires
        pieces.len() > 0,
        no_quote(word),
        word.len() > 0,
        occurs_at(joined(pieces), word, p),
    ensures
        0 <= i < pieces.len(),
        occurs_at(pieces[i], word, p - start_of(pieces, i)),
{
    let text = joined(pieces);
    let there = text.subrange(p, p + word.len());
    assert(there == word);
    assert forall|k: int| 0 <= k < word.len() implies text[p + k] == word[k] by {
        assert(there[k] == word[k]);
    }
    lemma_joined(pieces);
    let i = lemma_piece_at(pieces, p);
    let start = start_of(pieces, i);
    assert(text[p] == word[0]);
    if i > 0 && p == start - 1 {
        assert(text[p] == 0x22);
        assert(false);
    }
    let size = pieces[i].len() as int;
    let o = p - start;
    assert(start_of(pieces, i + 1) == start + size + 1);
    if o + word.len() > size {
        if i == pieces.len() - 1 {
            assert(text.len() == start + size);
        } else {
            assert(text[start_of(pieces, i + 1) - 1] == 0x22);
            assert(text[p + (size - o)] == word[size - o]);
        }
        assert(false);
    }
    let inner = pieces[i].subrange(o, o + word.len());
    assert forall|k: int| 0 <= k < word.len() implies inner[k] == word[k] by {
        assert(pieces[i][o + k] == text[start + (o + k)]);
    }
    assert(inner =~= word);
    i
}

/// The white space at place `i`; none at places that are not given.
pub open spec fn gap(gaps: Seq<Seq<u8>>, i: int) -> Seq<u8> {
    if 0 <= i < gaps.len() {
        gaps[i]
    } else {
        Seq::empty()
    }
}

/// There is nothing but white space at every place.
pub open spec fn blank(gaps: Seq<Seq<u8>>) -> bool {
    forall|i: int, k: int|
        #![trigger gaps[i][k]]
        0 <= i < gaps.len() && 0 <= k < gaps[i].len() ==> is_space(gaps[i][k])
}

/// A comma, with the white space at places `i` and `i + 1` around it.
#[verifier::opaque]
pub open spec fn comma(gaps: Seq<Seq<u8>>, i: int) -> Seq<u8> {
    gap(gaps, i) + seq![0x2cu8] + gap(gaps, i + 1)
}

/// The pieces of a list of quoted names: what opens it, the names with commas between them,
/// and what closes it.
pub open spec fn list_pieces(
    names: Seq<Seq<u8>>,
    gaps: Seq<Seq<u8>>,
    open_with: Seq<u8>,
    close_with: Seq<u8>,
) -> Seq<Seq<u8>> {
    if names.len() == 0 {
        seq![open_with + close_with]
    } else {
        Seq::new(
            2 * names.len() + 1,
            |j: int|
                if j % 2 == 1 {
                    names[j / 2]
                } else if j == 0 {
                    open_with
                } else if j == 2 * names.len() {
                    close_with
                } else {
                    comma(gaps, j)
                },
        )
    }
}

/// The bracket that opens a list, with the white space behind it.
pub open spec fn list_open(gaps: Seq<Seq<u8>>) -> Seq<u8> {
    seq![0x5bu8] + gap(gaps, 0)
}

/// The bracket that closes a list, with the white space in front of it.
pub open spec fn list_close(gaps: Seq<Seq<u8>>) -> Seq<u8> {
    gap(gaps, 1) + seq![0x5du8]
}

/// The pieces of the text of a list.
pub open spec fn bare_list(names: Seq<Seq<u8>>, gaps: Seq<Seq<u8>>) -> Seq<Seq<u8>> {
    list_pieces(names, gaps, list_open(gaps), list_close(gaps))
}

/// The text of a list of quoted names.
pub open spec fn list_text(names: Seq<Seq<u8>>, gaps: Seq<Seq<u8>>) -> Seq<u8> {
    joined(bare_list(names, gaps))
}

/// The word has something in it, but no quote, and it does not stand in front of names: in
/// what opens the list, or in the commas and the white space between names.
pub open spec fn is_word(names: Seq<Seq<u8>>, gaps: Seq<Seq<u8>>, word: Seq<u8>) -> bool {
    &&& word.len() > 0
    &&& no_quote(word)
    &&& forall|k: int, o: int|
        0 <= k < names.len() ==> !#[trigger] occurs_at(bare_list(names, gaps)[2 * k], word, o)
}

/// `word` is part of no name but itself.
pub open spec fn stands_alone(names: Seq<Seq<u8>>, word: Seq<u8>) -> bool {
    forall|k: int, o: int|
        0 <= k < names.len() && #[trigger] occurs_at(names[k], word, o) ==> names[k] == word
}

/// In a list of quoted names, a word that is part of no other name is found exactly if it is
/// one of them.
pub proof fn law_listed_name_is_found(names: Seq<Seq<u8>>, gaps: Seq<Seq<u8>>, word: Seq<u8>)
    requires
        no_quotes(names),
        blank(gaps),
        is_word(names, gaps, word),
        stands_alone(names, word),
    ensures
        contains_quoted(list_text(names, gaps), word) <==> names.contains(word),
{
    let pieces = bare_list(names, gaps);
    let text = list_text(names, gaps);
    if names.contains(word) {
        let k = choose|k: int| 0 <= k < names.len() && names[k] == word;
        let i = 2 * k + 1;
        assert(pieces[i] == names[k]);
        let at = start_of(pieces, i);
        lemma_piece_is_quoted(pieces, i);
        assert(1 <= at && text.subrange(at, at + word.len()) =~= word) by {
            lemma_start_grows(pieces, i, i);
            let there = text.subrange(at - 1, at + word.len() + 1);
            assert(there == quoted(word));
            assert forall|x: int| 0 <= x < word.len() implies text[at + x] == word[x] by {
                assert(there[x + 1] == quoted(word)[x + 1]);
            }
        }
        assert(occurs_at(text, word, at));
        let first = lemma_first_exists(text, word, at);
        lemma_first_at(text, word, 0, first);
        lemma_list_occurrence(names, gaps, word, first);
        lemma_start_grows(pieces, i, pieces.len() - 1);
    } else if exists|p: int| 0 <= p && #[trigger] occurs_at(text, word, p) {
        let p = choose|p: int| 0 <= p && #[trigger] occurs_at(text, word, p);
        let first = lemma_first_exists(text, word, p);
        lemma_first_at(text, word, 0, first);
        lemma_list_occurrence(names, gaps, word, first);
    } else {
        lemma_no_first_at(text, word, 0);
    }
}

/// Wherever a word stands in a list, it is a whole name, with a quote on either side, or it
/// stands behind all names, with no quote behind it.
proof fn lemma_list_occurrence(
    names: Seq<Seq<u8>>,
    gaps: Seq<Seq<u8>>,
    word: Seq<u8>,
    p: int,
)
    requires
        blank(gaps),
        is_word(names, gaps, word),
        stands_alone(names, word),
        occurs_at(list_text(names, gaps), word, p),
    ensures
        ({
            let pieces = bare_list(names, gaps);
            let text = list_text(names, gaps);
            ||| {
                &&& names.contains(word)
                &&& p > 0
                &&& p + word.len() < text.len()
                &&& text[p - 1] == 0x22
                &&& text[p + word.len()] == 0x22
            }
            ||| {
                &&& start_of(pieces, pieces.len() - 1) <= p
                &&& p + word.len() < text.len() ==> text[p + word.len()] != 0x22
            }
        }),
{
    let pieces = bare_list(names, gaps);
    let text = list_text(names, gaps);
    let i = lemma_word_within(pieces, word, p);
    let o = p - start_of(pieces, i);
    let last = pieces.len() - 1;
    if i < last && i % 2 == 1 {
        let k = i / 2;
        assert(pieces[i] == names[k]);
        assert(occurs_at(names[k], word, o));
        assert(names[k] == word);
        assert(o == 0);
        assert(start_of(pieces, i + 1) == start_of(pieces, i) + word.len() + 1);
        lemma_piece_quote(pieces, i);
        lemma_piece_quote(pieces, i + 1);
    } else if i < last {
        let k = i / 2;
        assert(i == 2 * k);
        assert(occurs_at(pieces[2 * k], word, o));
        assert(false);
    } else {
        assert(text.len() == start_of(pieces, last) + pieces[last].len()) by {
            lemma_joined(pieces);
            assert(start_of(pieces, last + 1) == start_of(pieces, last) + pieces[last].len() + 1);
        }
        if p + word.len() < text.len() {
            lemma_list_close(names, gaps, o + word.len());
            lemma_piece_byte(pieces, last, o + word.len());
        }
    }
}

/// The last piece of a list holds no quote.
proof fn lemma_list_close(names: Seq<Seq<u8>>, gaps: Seq<Seq<u8>>, k: int)
    requires
        blank(gaps),
        0 <= k < bare_list(names, gaps).last().len(),
    ensures
        bare_list(names, gaps).last()[k] != 0x22,
{
    let open_with = list_open(gaps);
    let close_with = list_close(gaps);
    assert(no_quote(open_with));
    assert(no_quote(close_with));
    if names.len() == 0 && k >= open_with.len() {
        assert(close_with[k - open_with.len()] != 0x22);
    }
}

/// Where a word stands at all, there is a first place.
proof fn lemma_first_exists(hay: Seq<u8>, needle: Seq<u8>, i: int) -> (first: int)
    requires
        0 <= i,
        occurs_at(hay, needle, i),
    ensures
        is_first_at(hay, needle, 0, first),
    decreases i,
{
    if forall|j: int| 0 <= j < i ==> !#[trigger] occurs_at(hay, needle, j) {
        i
    } else {
        let j = choose|j: int| 0 <= j < i && #[trigger] occurs_at(hay, needle, j);
        lemma_first_exists(hay, needle, j)
    }
}

} // verus!
