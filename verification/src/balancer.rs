//! Sharing connections out to workers.

use vstd::prelude::*;
use vstd::string::*;

verus! {

/// The workers where none are set.
pub const DEFAULT_UPSTREAMS: &'static str = "/sockets/api1.sock,/sockets/api2.sock";

/// White space of Unicode.
pub open spec fn is_white(c: char) -> bool {
    let v = c as u32;
    0x09 <= v <= 0x0d || v == 0x20 || v == 0x85 || v == 0xa0 || v == 0x1680 || 0x2000 <= v <= 0x200a
        || v == 0x2028 || v == 0x2029 || v == 0x202f || v == 0x205f || v == 0x3000
}

/// The pieces of `s` between commas.
pub open spec fn split_commas(s: Seq<char>) -> Seq<Seq<char>>
    decreases s.len(),
{
    if s.len() == 0 {
        seq![Seq::empty()]
    } else {
        let rest = split_commas(s.drop_last());
        if s.last() == ',' {
            rest.push(Seq::empty())
        } else {
            rest.drop_last().push(rest.last().push(s.last()))
        }
    }
}

/// `s` without white space at its start.
pub open spec fn trim_start(s: Seq<char>) -> Seq<char>
    decreases s.len(),
{
    if s.len() > 0 && is_white(s[0]) {
        trim_start(s.skip(1))
    } else {
        s
    }
}

/// `s` without white space at its end.
pub open spec fn trim_end(s: Seq<char>) -> Seq<char>
    decreases s.len(),
{
    if s.len() > 0 && is_white(s.last()) {
        trim_end(s.drop_last())
    } else {
        s
    }
}

/// `s` without white space around it.
pub open spec fn trimmed(s: Seq<char>) -> Seq<char> {
    trim_end(trim_start(s))
}

/// The pieces without white space around them; those of which nothing is left are dropped.
pub open spec fn names_of(pieces: Seq<Seq<char>>) -> Seq<Seq<char>>
    decreases pieces.len(),
{
    if pieces.len() == 0 {
        Seq::empty()
    } else {
        let rest = names_of(pieces.drop_last());
        if trimmed(pieces.last()).len() > 0 {
            rest.push(trimmed(pieces.last()))
        } else {
            rest
        }
    }
}

/// Texts as sequences of characters.
pub open spec fn texts(list: Seq<String>) -> Seq<Seq<char>> {
    Seq::new(list.len(), |i: int| list[i]@)
}

fn is_white_char(c: char) -> (white: bool)
    ensures
        white == is_white(c),
{
    let v: u32 = c as u32;
    (v >= 0x09 && v <= 0x0d) || v == 0x20 || v == 0x85 || v == 0xa0 || v == 0x1680 || (v >= 0x2000
        && v <= 0x200a) || v == 0x2028 || v == 0x2029 || v == 0x202f || v == 0x205f || v == 0x3000
}

/// The text without white space around it.
pub fn trim<'a>(text: &'a str) -> (inner: &'a str)
    ensures
        inner@ == trimmed(text@),
{
    let len: usize = text.unicode_len();
    let mut start: usize = 0;
    assert(text@.skip(0) =~= text@);
    while start < len && is_white_char(text.get_char(start))
        invariant
            0 <= start <= len,
            len == text@.len(),
            trim_start(text@.skip(start as int)) == trim_start(text@),
        decreases len - start,
    {
        assert(text@.skip(start as int).skip(1) =~= text@.skip(start + 1));
        start = start + 1;
    }
    let ghost front = text@.skip(start as int);
    assert(trim_start(text@) == front);
    let mut end: usize = len;
    assert(text@.subrange(start as int, end as int) =~= front);
    while start < end && is_white_char(text.get_char(end - 1))
        invariant
            0 <= start <= end <= len,
            len == text@.len(),
            trim_end(text@.subrange(start as int, end as int)) == trim_end(front),
        decreases end,
    {
        assert(text@.subrange(start as int, end as int).drop_last() =~= text@.subrange(
            start as int,
            end - 1,
        ));
        end = end - 1;
    }
    text.substring_char(start, end)
}

/// The workers that a comma-separated list names; the default where there is no list.
pub fn parse_upstreams(value: Option<String>) -> (upstreams: Vec<String>)
    ensures
        texts(upstreams@) == names_of(
            split_commas(
                match value {
                    Some(list) => list@,
                    None => DEFAULT_UPSTREAMS@,
                },
            ),
        ),
        ({
            let names = names_of(
                split_commas(
                    match value {
                        Some(list) => list@,
                        None => "/sockets/api1.sock,/sockets/api2.sock"@,
                    },
                ),
            );
            &&& upstreams@.len() == names.len()
            &&& forall|i: int|
                0 <= i < upstreams@.len() ==> (#[trigger] upstreams@[i])@ == names[i]
        }),
{
    let upstreams = match value {
        Some(list) => split_names(list.as_str()),
        None => split_names(DEFAULT_UPSTREAMS),
    };
    assert forall|i: int| 0 <= i < upstreams@.len() implies (#[trigger] upstreams@[i])@ == texts(
        upstreams@,
    )[i] by {}
    upstreams
}

/// The names in a comma-separated list.
fn split_names(list: &str) -> (names: Vec<String>)
    ensures
        texts(names@) == names_of(split_commas(list@)),
{
    let len: usize = list.unicode_len();
    let ghost s = list@;
    let mut names: Vec<String> = Vec::new();
    let mut start: usize = 0;
    let mut i: usize = 0;
    proof {
        assert(split_commas(s.take(0)).drop_last() =~= Seq::empty());
        assert(s.subrange(0, 0) =~= Seq::empty());
        assert(texts(names@) =~= Seq::empty());
    }
    while i < len
        invariant
            0 <= start <= i <= len,
            len == s.len(),
            s == list@,
            split_commas(s.take(i as int)).len() > 0,
            split_commas(s.take(i as int)).last() == s.subrange(start as int, i as int),
            texts(names@) == names_of(split_commas(s.take(i as int)).drop_last()),
        decreases len - i,
    {
        let ghost pieces = split_commas(s.take(i as int));
        proof {
            assert(s.take(i + 1).drop_last() =~= s.take(i as int));
            assert(s.take(i + 1).last() == s[i as int]);
        }
        if list.get_char(i) == ',' {
            push_name(&mut names, list.substring_char(start, i));
            start = i + 1;
            proof {
                let more = split_commas(s.take(i + 1));
                assert(more.drop_last() =~= pieces);
                assert(s.subrange(start as int, i + 1) =~= Seq::empty());
            }
        } else {
            proof {
                let more = split_commas(s.take(i + 1));
                assert(more.drop_last() =~= pieces.drop_last());
                assert(more.last() =~= s.subrange(start as int, i + 1));
            }
        }
        i = i + 1;
    }
    assert(s.take(len as int) =~= s);
    push_name(&mut names, list.substring_char(start, len));
    names
}

/// Adds a piece without white space around it, if anything is left of it.
fn push_name(names: &mut Vec<String>, piece: &str)
    ensures
        texts(final(names)@) == if trimmed(piece@).len() > 0 {
            texts(old(names)@).push(trimmed(piece@))
        } else {
            texts(old(names)@)
        },
{
    let name = trim(piece);
    if name.unicode_len() > 0 {
        let ghost before = texts(names@);
        names.push(name.to_owned());
        assert(texts(names@) =~= before.push(trimmed(piece@)));
    }
}

/// Names hold something, and no white space around it.
pub proof fn law_names_are_trimmed(s: Seq<char>, i: int)
    requires
        0 <= i < names_of(split_commas(s)).len(),
    ensures
        names_of(split_commas(s))[i].len() > 0,
        !is_white(names_of(split_commas(s))[i][0]),
        !is_white(names_of(split_commas(s))[i].last()),
{
    lemma_names_are_trimmed(split_commas(s), i);
}

proof fn lemma_names_are_trimmed(pieces: Seq<Seq<char>>, i: int)
    requires
        0 <= i < names_of(pieces).len(),
    ensures
        names_of(pieces)[i].len() > 0,
        !is_white(names_of(pieces)[i][0]),
        !is_white(names_of(pieces)[i].last()),
    decreases pieces.len(),
{
    let rest = names_of(pieces.drop_last());
    if i < rest.len() {
        lemma_names_are_trimmed(pieces.drop_last(), i);
    } else {
        lemma_trim_start(pieces.last());
        lemma_trim_end(trim_start(pieces.last()));
    }
}

proof fn lemma_trim_start(s: Seq<char>)
    ensures
        trim_start(s).len() > 0 ==> !is_white(trim_start(s)[0]),
    decreases s.len(),
{
    if s.len() > 0 && is_white(s[0]) {
        lemma_trim_start(s.skip(1));
    }
}

proof fn lemma_trim_end(s: Seq<char>)
    ensures
        trim_end(s).len() > 0 ==> !is_white(trim_end(s).last()) && trim_end(s)[0] == s[0],
    decreases s.len(),
{
    if s.len() > 0 && is_white(s.last()) {
        lemma_trim_end(s.drop_last());
    }
}

/// Whose turn it is.
pub struct RoundRobin {
    next: usize,
}

/// The next number, counting on from 0 behind the last one.
pub open spec fn counted_on(n: usize) -> usize {
    if n == usize::MAX {
        0
    } else {
        (n + 1) as usize
    }
}

/// The worker that attempt `attempt` of a connection goes to.
pub open spec fn target_of(first: int, attempt: int, count: int) -> int {
    (first + attempt) % count
}

impl RoundRobin {
    /// How many connections have had their turn.
    pub closed spec fn turns(self) -> usize {
        self.next
    }

    pub fn new() -> (turn: Self)
        ensures
            turn.turns() == 0,
    {
        RoundRobin { next: 0 }
    }

    /// The worker that the next connection is offered to first.
    pub fn take_turn(&mut self, count: usize) -> (first: usize)
        requires
            count > 0,
        ensures
            first == old(self).turns() % count,
            first < count,
            final(self).turns() == counted_on(old(self).turns()),
            old(self).turns() < usize::MAX ==> final(self).turns() == old(self).turns() + 1,
            old(self).turns() == usize::MAX ==> final(self).turns() == 0,
    {
        let first: usize = self.next % count;
        self.next = if self.next == usize::MAX {
            0
        } else {
            self.next + 1
        };
        first
    }
}

/// The worker that attempt `attempt` goes to.
pub fn target(first: usize, attempt: usize, count: usize) -> (worker: usize)
    requires
        first < count,
        attempt < count,
    ensures
        worker == target_of(first as int, attempt as int, count as int),
        worker < count,
        worker == first + attempt || worker == first + attempt - count,
{
    if attempt < count - first {
        proof {
            vstd::arithmetic::div_mod::lemma_small_mod((first + attempt) as nat, count as nat);
        }
        first + attempt
    } else {
        proof {
            vstd::arithmetic::div_mod::lemma_mod_add_multiples_vanish(
                first + attempt - count,
                count as int,
            );
            vstd::arithmetic::div_mod::lemma_small_mod(
                (first + attempt - count) as nat,
                count as nat,
            );
        }
        attempt - (count - first)
    }
}

/// A connection that is refused is offered to every worker, to each of them once.
pub proof fn law_every_worker_is_tried(first: int, worker: int, count: int)
    requires
        0 <= first < count,
        0 <= worker < count,
    ensures
        exists|attempt: int|
            0 <= attempt < count && #[trigger] target_of(first, attempt, count) == worker,
        forall|one: int, other: int|
            0 <= one < count && 0 <= other < count && #[trigger] target_of(first, one, count)
                == #[trigger] target_of(first, other, count) ==> one == other,
{
    let attempt = if worker >= first {
        worker - first
    } else {
        worker - first + count
    };
    lemma_target(first, attempt, count);
    assert(target_of(first, attempt, count) == worker);
    assert forall|one: int, other: int|
        0 <= one < count && 0 <= other < count && #[trigger] target_of(first, one, count)
            == #[trigger] target_of(first, other, count) implies one == other by {
        lemma_target(first, one, count);
        lemma_target(first, other, count);
    }
}

proof fn lemma_target(first: int, attempt: int, count: int)
    requires
        0 <= first < count,
        0 <= attempt < count,
    ensures
        target_of(first, attempt, count) == if first + attempt < count {
            first + attempt
        } else {
            first + attempt - count
        },
{
    if first + attempt < count {
        vstd::arithmetic::div_mod::lemma_small_mod((first + attempt) as nat, count as nat);
    } else {
        vstd::arithmetic::div_mod::lemma_mod_add_multiples_vanish(first + attempt - count, count);
        vstd::arithmetic::div_mod::lemma_small_mod(
            (first + attempt - count) as nat,
            count as nat,
        );
    }
}

/// Workers take turns: the next connection starts with the next worker, as long as the
/// count of connections goes on.
pub proof fn law_workers_take_turns(turns: usize, count: usize)
    requires
        count > 0,
        turns < usize::MAX,
    ensures
        counted_on(turns) % count == target_of((turns % count) as int, 1, count as int),
{
    vstd::arithmetic::div_mod::lemma_add_mod_noop(turns as int, 1, count as int);
    if count > 1 {
        vstd::arithmetic::div_mod::lemma_small_mod(1, count as nat);
    }
    vstd::arithmetic::div_mod::lemma_add_mod_noop((turns % count) as int, 1, count as int);
}

/// One connection that is offered to the workers, one after the other.
pub struct Offer {
    first: usize,
    refusals: usize,
    count: usize,
}

impl Offer {
    /// The worker that the connection is offered to first.
    pub closed spec fn starts_at(self) -> usize {
        self.first
    }

    /// How many workers have refused it.
    pub closed spec fn refused_by(self) -> usize {
        self.refusals
    }

    /// How many workers there are.
    pub closed spec fn workers(self) -> usize {
        self.count
    }

    pub closed spec fn wf(self) -> bool {
        self.first < self.count && self.refusals <= self.count
    }

    pub fn new(first: usize, count: usize) -> (offer: Self)
        requires
            first < count,
        ensures
            offer.wf(),
            offer.starts_at() == first,
            offer.refused_by() == 0,
            offer.workers() == count,
    {
        Offer { first, refusals: 0, count }
    }

    /// The worker whose turn it is; none once all have refused.
    pub fn current(&self) -> (worker: Option<usize>)
        requires
            self.wf(),
        ensures
            match worker {
                Some(w) => {
                    &&& self.refused_by() < self.workers()
                    &&& w < self.workers()
                    &&& w == target_of(
                        self.starts_at() as int,
                        self.refused_by() as int,
                        self.workers() as int,
                    )
                },
                None => self.refused_by() == self.workers(),
            },
    {
        if self.refusals < self.count {
            Some(target(self.first, self.refusals, self.count))
        } else {
            None
        }
    }

    /// Goes on to the next worker.
    pub fn refused(&mut self)
        requires
            old(self).wf(),
            old(self).refused_by() < old(self).workers(),
        ensures
            final(self).wf(),
            final(self).starts_at() == old(self).starts_at(),
            final(self).workers() == old(self).workers(),
            final(self).refused_by() == old(self).refused_by() + 1,
    {
        self.refusals = self.refusals + 1;
    }
}

/// White space before and behind a text is taken off, as much of it as there is, and nothing else.
pub proof fn law_white_space_is_taken_off(front: Seq<char>, core: Seq<char>, back: Seq<char>)
    requires
        ({
            let white = |c: char|
                {
                    ||| 0x09 <= c as u32 <= 0x0d
                    ||| c as u32 == 0x20
                    ||| c as u32 == 0x85
                    ||| c as u32 == 0xa0
                    ||| c as u32 == 0x1680
                    ||| 0x2000 <= c as u32 <= 0x200a
                    ||| c as u32 == 0x2028
                    ||| c as u32 == 0x2029
                    ||| c as u32 == 0x202f
                    ||| c as u32 == 0x205f
                    ||| c as u32 == 0x3000
                };
            &&& forall|i: int| 0 <= i < front.len() ==> white(#[trigger] front[i])
            &&& forall|i: int| 0 <= i < back.len() ==> white(#[trigger] back[i])
            &&& core.len() > 0 ==> !white(core[0]) && !white(core.last())
        }),
    ensures
        trimmed(front + core + back) == core,
{
    lemma_front_goes(front, core + back);
    assert(front + core + back =~= front + (core + back));
    if core.len() > 0 {
        assert((core + back)[0] == core[0]);
        lemma_back_goes(core, back);
    } else {
        assert(core + back =~= back + Seq::<char>::empty());
        lemma_front_goes(back, Seq::<char>::empty());
    }
}

proof fn lemma_front_goes(front: Seq<char>, rest: Seq<char>)
    requires
        forall|i: int| 0 <= i < front.len() ==> is_white(#[trigger] front[i]),
    ensures
        trim_start(front + rest) == trim_start(rest),
    decreases front.len(),
{
    if front.len() > 0 {
        assert((front + rest).skip(1) =~= front.skip(1) + rest);
        assert((front + rest)[0] == front[0]);
        lemma_front_goes(front.skip(1), rest);
    } else {
        assert(front + rest =~= rest);
    }
}

proof fn lemma_back_goes(core: Seq<char>, back: Seq<char>)
    requires
        forall|i: int| 0 <= i < back.len() ==> is_white(#[trigger] back[i]),
        core.len() > 0,
        !is_white(core.last()),
    ensures
        trim_end(core + back) == core,
    decreases back.len(),
{
    if back.len() > 0 {
        assert((core + back).drop_last() =~= core + back.drop_last());
        lemma_back_goes(core, back.drop_last());
    } else {
        assert(core + back =~= core);
    }
}

/// A text without commas is one piece, and each comma starts another.
pub proof fn law_commas_part_the_pieces(front: Seq<char>, piece: Seq<char>)
    requires
        !piece.contains(','),
    ensures
        split_commas(piece) == seq![piece],
        split_commas(front + seq![','] + piece) == split_commas(front).push(piece),
    decreases piece.len(),
{
    let whole = front + seq![','] + piece;
    if piece.len() == 0 {
        assert(piece =~= Seq::<char>::empty());
        assert(whole.drop_last() =~= front);
        assert(whole.last() == ',');
    } else {
        let less = piece.drop_last();
        assert forall|c: char| less.contains(c) implies piece.contains(c) by {
            let i = less.index_of(c);
            assert(piece[i] == c);
        }
        law_commas_part_the_pieces(front, less);
        assert(whole.drop_last() =~= front + seq![','] + less);
        assert(piece.contains(piece.last()));
        assert(less.push(piece.last()) =~= piece);
        assert(split_commas(piece) =~= seq![piece]);
        assert(split_commas(whole) =~= split_commas(front).push(piece));
    }
}

/// The names are the pieces without white space around them, in their order, but for those of
/// which nothing is left.
pub proof fn law_names_are_the_pieces(pieces: Seq<Seq<char>>)
    ensures
        names_of(pieces) == pieces.map_values(|piece: Seq<char>| trimmed(piece)).filter(
            |name: Seq<char>| name.len() > 0,
        ),
    decreases pieces.len(),
{
    reveal(Seq::filter);
    let all = pieces.map_values(|piece: Seq<char>| trimmed(piece));
    if pieces.len() > 0 {
        law_names_are_the_pieces(pieces.drop_last());
        assert(all.drop_last() =~= pieces.drop_last().map_values(
            |piece: Seq<char>| trimmed(piece),
        ));
    }
}

/// A connection goes to its first worker, and after each refusal to the one behind it, the first
/// of all being behind the last.
pub proof fn law_refusal_moves_on_by_one(first: int, attempt: int, count: int)
    requires
        0 <= first < count,
        0 <= attempt,
        attempt + 1 < count,
    ensures
        target_of(first, 0, count) == first,
        target_of(first, attempt + 1, count) == if target_of(first, attempt, count) == count - 1 {
            0
        } else {
            target_of(first, attempt, count) + 1
        },
{
    lemma_target(first, 0, count);
    lemma_target(first, attempt, count);
    lemma_target(first, attempt + 1, count);
}

} // verus!
