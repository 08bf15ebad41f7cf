use vstd::prelude::*;
use vstd::utf8::encode_utf8;

verus! {

/// Whether `c` is white space as Unicode defines it (`White_Space`).
pub open spec fn is_space(c: char) -> bool {
    let code = c as u32;
    ||| 0x09 <= code <= 0x0D
    ||| code == 0x20
    ||| code == 0x85
    ||| code == 0xA0
    ||| code == 0x1680
    ||| 0x2000 <= code <= 0x200A
    ||| code == 0x2028
    ||| code == 0x2029
    ||| code == 0x202F
    ||| code == 0x205F
    ||| code == 0x3000
}

/// `text` without the white space at its head.
pub open spec fn trim_start(text: Seq<char>) -> Seq<char>
    decreases text.len(),
{
    if text.len() > 0 && is_space(text.first()) {
        trim_start(text.drop_first())
    } else {
        text
    }
}

/// `text` without the white space at its tail.
pub open spec fn trim_end(text: Seq<char>) -> Seq<char>
    decreases text.len(),
{
    if text.len() > 0 && is_space(text.last()) {
        trim_end(text.drop_last())
    } else {
        text
    }
}

/// `text` without the white space at either end.
pub open spec fn trimmed(text: Seq<char>) -> Seq<char> {
    trim_end(trim_start(text))
}

/// The pieces of `text` between its commas, in order. A text without a comma
/// is one piece, an empty text one empty piece.
pub open spec fn pieces(text: Seq<char>) -> Seq<Seq<char>>
    decreases text.len(),
{
    if text.len() == 0 {
        seq![Seq::empty()]
    } else {
        let before = pieces(text.drop_last());
        if text.last() == ',' {
            before.push(Seq::empty())
        } else {
            before.update(before.len() - 1, before.last().push(text.last()))
        }
    }
}

/// The origins that the comma-separated list `text` names: its pieces, each
/// without the white space around it.
pub open spec fn origins_of(text: Seq<char>) -> Seq<Seq<char>> {
    pieces(text).map_values(|piece: Seq<char>| trimmed(piece))
}

/// Whether a byte may stand in the value of an HTTP header: no control
/// character but the tab.
pub open spec fn is_header_byte(byte: u8) -> bool {
    byte >= 32 && byte != 127 || byte == 9
}

/// Whether `text` can be the value of an HTTP header: every byte of its
/// UTF-8 form may stand there.
pub open spec fn is_header_value(text: Seq<char>) -> bool {
    forall|i: int|
        0 <= i < encode_utf8(text).len() ==> is_header_byte(#[trigger] encode_utf8(text)[i])
}

/// The texts of a list of strings, in order.
pub open spec fn texts(list: Seq<String>) -> Seq<Seq<char>> {
    list.map_values(|item: String| item@)
}

/// Why a list of origins is refused.
#[derive(Clone, Copy, Debug, PartialEq, Eq, Structural)]
pub enum OriginError {
    /// The origin at this place of the list cannot be a header value.
    Invalid { position: usize },
}

/// `HeaderValue::from_str` of the http crate, as axum hands it on, asked
/// only whether it accepts `text`. It accepts a text exactly when each of
/// its bytes is at least 32 and not 127, or is the tab.
#[verifier::external_body]
fn header_value_accepts(text: &str) -> (accepted: bool)
    ensures
        accepted == is_header_value(text@),
{
    axum::http::HeaderValue::from_str(text).is_ok()
}

fn is_space_char(c: char) -> (r: bool)
    ensures
        r == is_space(c),
{
    let code: u32 = c as u32;
    (0x09 <= code && code <= 0x0D) || code == 0x20 || code == 0x85 || code == 0xA0 || code
        == 0x1680 || (0x2000 <= code && code <= 0x200A) || code == 0x2028 || code == 0x2029
        || code == 0x202F || code == 0x205F || code == 0x3000
}

/// The part of `list` from `from` up to `to`, without the white space
/// around it.
fn trimmed_between(list: &str, from: usize, to: usize) -> (origin: String)
    requires
        from <= to <= list@.len(),
    ensures
        origin@ == trimmed(list@.subrange(from as int, to as int)),
{
    let mut head: usize = from;
    while head < to && is_space_char(list.get_char(head))
        invariant
            from <= head <= to <= list@.len(),
            trim_start(list@.subrange(from as int, to as int)) == trim_start(
                list@.subrange(head as int, to as int),
            ),
        decreases to - head,
    {
        assert(list@.subrange(head as int, to as int).drop_first() =~= list@.subrange(
            head + 1,
            to as int,
        ));
        head += 1;
    }
    let mut tail: usize = to;
    while tail > head && is_space_char(list.get_char(tail - 1))
        invariant
            head <= tail <= to <= list@.len(),
            trim_end(list@.subrange(head as int, to as int)) == trim_end(
                list@.subrange(head as int, tail as int),
            ),
        decreases tail - head,
    {
        assert(list@.subrange(head as int, tail as int).drop_last() =~= list@.subrange(
            head as int,
            tail - 1,
        ));
        tail -= 1;
    }
    String::from_str(list.substring_char(head, tail))
}

/// Splits the comma-separated list into its origins, each without the white
/// space around it.
pub fn split_origins(list: &str) -> (origins: Vec<String>)
    ensures
        texts(origins@) == origins_of(list@),
{
    let length = list.unicode_len();
    let mut origins: Vec<String> = Vec::new();
    let ghost mut complete: Seq<Seq<char>> = Seq::empty();
    let mut start: usize = 0;
    let mut at: usize = 0;
    assert(list@.take(0) =~= Seq::<char>::empty());
    while at < length
        invariant
            length == list@.len(),
            start <= at <= length,
            pieces(list@.take(at as int)) == complete.push(list@.subrange(start as int, at as int)),
            texts(origins@) == complete.map_values(|piece: Seq<char>| trimmed(piece)),
        decreases length - at,
    {
        assert(list@.take(at + 1).drop_last() =~= list@.take(at as int));
        if list.get_char(at) == ',' {
            let origin = trimmed_between(list, start, at);
            let ghost piece = list@.subrange(start as int, at as int);
            origins.push(origin);
            proof {
                assert(complete.push(piece).map_values(|piece: Seq<char>| trimmed(piece))
                    =~= complete.map_values(|piece: Seq<char>| trimmed(piece)).push(
                    trimmed(piece),
                ));
                complete = complete.push(piece);
                assert(list@.subrange(at + 1, at + 1) =~= Seq::<char>::empty());
            }
            start = at + 1;
        } else {
            proof {
                assert(list@.subrange(start as int, at + 1) =~= list@.subrange(
                    start as int,
                    at as int,
                ).push(list@[at as int]));
            }
        }
        at += 1;
    }
    let origin = trimmed_between(list, start, length);
    let ghost piece = list@.subrange(start as int, length as int);
    origins.push(origin);
    proof {
        assert(list@.take(length as int) =~= list@);
        assert(complete.push(piece).map_values(|piece: Seq<char>| trimmed(piece))
            =~= complete.map_values(|piece: Seq<char>| trimmed(piece)).push(trimmed(piece)));
    }
    origins
}

/// Reads the comma-separated allow-list of origins. Every origin has to be
/// fit for a header value; the first that is not is reported by its place.
pub fn parse_origins(list: &str) -> (r: Result<Vec<String>, OriginError>)
    ensures
        match r {
            Ok(origins) => texts(origins@) == origins_of(list@) && forall|i: int|
                0 <= i < origins_of(list@).len() ==> is_header_value(
                    #[trigger] origins_of(list@)[i],
                ),
            Err(OriginError::Invalid { position }) => position < origins_of(list@).len()
                && !is_header_value(origins_of(list@)[position as int]) && forall|i: int|
                0 <= i < position ==> is_header_value(#[trigger] origins_of(list@)[i]),
        },
{
    let origins = split_origins(list);
    let mut at: usize = 0;
    while at < origins.len()
        invariant
            at <= origins@.len(),
            texts(origins@) == origins_of(list@),
            forall|i: int| 0 <= i < at ==> is_header_value(#[trigger] origins_of(list@)[i]),
        decreases origins@.len() - at,
    {
        if !header_value_accepts(origins[at].as_str()) {
            return Err(OriginError::Invalid { position: at });
        }
        at += 1;
    }
    Ok(origins)
}

} // verus!
