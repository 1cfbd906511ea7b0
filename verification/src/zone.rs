//! Hidden zones: an encoded payload between two zone flags, anywhere in a text.

use vstd::prelude::*;
use vstd::slice::slice_subrange;
use vstd::string::StringExecFns;
use crate::alphabet::{is_symbol, lemma_alphabet_distinct, HAIR_SPACE, ZERO_WIDTH_SPACE, ZONE_CODE};
use crate::codec::{
    decode, decode_symbols, decoded_view, encode, lemma_decode_encode, lemma_encode_all_symbols,
    to_base_4, to_chars,
};
use crate::error::{CodecError, ExtractError};

verus! {

/// Whether the zone flag stands in `text` at position `i`.
pub open spec fn flag_at(text: Seq<char>, i: int) -> bool {
    0 <= i && i + 3 <= text.len() && text.subrange(i, i + 3) == ZONE_CODE@
}

/// Whether the zone flag stands nowhere in `text`.
pub open spec fn flag_free(text: Seq<char>) -> bool {
    forall|i: int| !flag_at(text, i)
}

/// The positions of the zone flags that a search from `from` finds in `text`.
///
/// The search goes from left to right. Where it finds a flag it takes it and goes on
/// behind it, so the flags found never overlap.
pub open spec fn flags_from(text: Seq<char>, from: int) -> Seq<int>
    decreases text.len() - from,
{
    if from < 0 || from + 3 > text.len() {
        Seq::empty()
    } else if flag_at(text, from) {
        seq![from] + flags_from(text, from + 3)
    } else {
        flags_from(text, from + 1)
    }
}

/// The positions of the zone flags in `text`, in the order of the text.
pub open spec fn flags(text: Seq<char>) -> Seq<int> {
    flags_from(text, 0)
}

/// The text between the `k`-th pair of the flags at `positions`.
pub open spec fn zone_text(text: Seq<char>, positions: Seq<int>, k: int) -> Seq<char> {
    text.subrange(positions[2 * k] + 3, positions[2 * k + 1])
}

/// `source` followed by one hidden zone that holds `payload`.
pub open spec fn embed(source: Seq<char>, payload: Seq<u8>) -> Seq<char> {
    source + ZONE_CODE@ + encode(payload) + ZONE_CODE@
}

/// What the hidden zones of `text` hold.
///
/// The flags pair up in the order in which they are found: the first with the second,
/// the third with the fourth. A flag left without a partner makes the whole text
/// unreadable. Otherwise each pair gives one zone, and each zone decodes on its own.
pub open spec fn extract(text: Seq<char>) -> Result<Seq<Result<Seq<u8>, CodecError>>, ExtractError> {
    let positions = flags(text);
    if positions.len() % 2 != 0 {
        Err(ExtractError::UnmatchedDelimiter)
    } else {
        Ok(Seq::new(positions.len() / 2, |k: int| decode(zone_text(text, positions, k))))
    }
}

/// The outcome of an extraction, with the zones as a sequence and their bytes as sequences.
pub open spec fn extracted_view(
    res: Result<Vec<Result<Vec<u8>, CodecError>>, ExtractError>,
) -> Result<Seq<Result<Seq<u8>, CodecError>>, ExtractError> {
    match res {
        Ok(zones) => Ok(zones@.map_values(|zone: Result<Vec<u8>, CodecError>| decoded_view(zone))),
        Err(e) => Err(e),
    }
}

/// A flag stands at `i` exactly when its three characters stand there.
pub proof fn lemma_flag_at(text: Seq<char>, i: int)
    ensures
        flag_at(text, i) <==> 0 <= i && i + 3 <= text.len() && text[i] == ZERO_WIDTH_SPACE
            && text[i + 1] == HAIR_SPACE && text[i + 2] == ZERO_WIDTH_SPACE,
{
    if 0 <= i && i + 3 <= text.len() {
        let part = text.subrange(i, i + 3);
        if part == ZONE_CODE@ {
            assert(part[0] == text[i] && part[1] == text[i + 1] && part[2] == text[i + 2]);
        }
        if text[i] == ZERO_WIDTH_SPACE && text[i + 1] == HAIR_SPACE && text[i + 2]
            == ZERO_WIDTH_SPACE {
            assert(part =~= ZONE_CODE@);
        }
    }
}

/// Whether `positions` are places of flags in `text`, none before `from`, each
/// beginning where the one before it has ended, or later.
pub open spec fn spaced_flags(text: Seq<char>, positions: Seq<int>, from: int) -> bool {
    &&& forall|k: int|
        0 <= k < positions.len() ==> from <= #[trigger] positions[k] && flag_at(text, positions[k])
    &&& forall|j: int, k: int|
        0 <= j < k < positions.len() ==> #[trigger] positions[j] + 3 <= #[trigger] positions[k]
}

/// The flags that a search finds are flags of the text, and they do not overlap.
pub proof fn lemma_flags_from_spaced(text: Seq<char>, from: int)
    requires
        0 <= from,
    ensures
        spaced_flags(text, flags_from(text, from), from),
    decreases text.len() - from,
{
    let all = flags_from(text, from);
    if from + 3 > text.len() {
    } else if flag_at(text, from) {
        lemma_flags_from_spaced(text, from + 3);
        let rest = flags_from(text, from + 3);
        assert(all =~= seq![from] + rest);
        assert forall|k: int| 0 <= k < all.len() implies from <= #[trigger] all[k] && flag_at(
            text,
            all[k],
        ) by {
            if k > 0 {
                assert(all[k] == rest[k - 1]);
            }
        }
        assert forall|j: int, k: int| 0 <= j < k < all.len() implies #[trigger] all[j] + 3
            <= #[trigger] all[k] by {
            assert(all[k] == rest[k - 1]);
            if j > 0 {
                assert(all[j] == rest[j - 1]);
            }
        }
    } else {
        lemma_flags_from_spaced(text, from + 1);
        let rest = flags_from(text, from + 1);
        assert(all == rest);
        assert forall|k: int| 0 <= k < all.len() implies from <= #[trigger] all[k] && flag_at(
            text,
            all[k],
        ) by {
            assert(from + 1 <= rest[k]);
        }
    }
}

/// No flag escapes the search: each flag of the text behind `from` is found, or
/// begins inside one that is found.
pub proof fn lemma_flags_from_complete(text: Seq<char>, from: int, i: int)
    requires
        0 <= from <= i,
        flag_at(text, i),
    ensures
        exists|k: int|
            0 <= k < flags_from(text, from).len() && #[trigger] flags_from(text, from)[k] <= i
                < flags_from(text, from)[k] + 3,
    decreases text.len() - from,
{
    let all = flags_from(text, from);
    if flag_at(text, from) {
        let rest = flags_from(text, from + 3);
        assert(all =~= seq![from] + rest);
        if i < from + 3 {
            assert(all[0] <= i < all[0] + 3);
        } else {
            lemma_flags_from_complete(text, from + 3, i);
            let k = choose|k: int| 0 <= k < rest.len() && #[trigger] rest[k] <= i < rest[k] + 3;
            assert(all[k + 1] == rest[k]);
        }
    } else {
        lemma_flags_from_complete(text, from + 1, i);
    }
}

/// A search skips a stretch that holds no flag.
pub proof fn lemma_flags_from_skip(text: Seq<char>, from: int, to: int)
    requires
        0 <= from <= to,
        forall|i: int| from <= i < to ==> !flag_at(text, i),
    ensures
        flags_from(text, from) == flags_from(text, to),
    decreases to - from,
{
    if from < to {
        lemma_flags_from_skip(text, from + 1, to);
        if from + 3 > text.len() {
            assert(flags_from(text, to) =~= Seq::<int>::empty());
        }
    }
}

/// Whether `text` ends with the first two characters of the zone flag.
///
/// Behind such a text a flag seems to begin two characters early.
pub open spec fn ends_with_flag_head(text: Seq<char>) -> bool {
    text.len() >= 2 && text.subrange(text.len() - 2, text.len() as int) == ZONE_CODE@.take(2)
}

/// An encoding never holds a zone flag: the hair space in the middle of the flag is
/// no symbol.
pub proof fn lemma_encoding_flag_free(payload: Seq<u8>)
    ensures
        flag_free(encode(payload)),
        forall|i: int| 0 <= i < encode(payload).len() ==> encode(payload)[i] != HAIR_SPACE,
{
    let coded = encode(payload);
    lemma_encode_all_symbols(payload);
    lemma_alphabet_distinct();
    assert forall|i: int| 0 <= i < coded.len() implies coded[i] != HAIR_SPACE by {
        assert(is_symbol(coded[i]));
    }
    assert forall|i: int| !flag_at(coded, i) by {
        lemma_flag_at(coded, i);
    }
}

/// The flags of one zone, wherever it stands.
///
/// Where `carrier`, a flag, the encoding of `payload` and a second flag stand in `text`
/// from `at` on, a search from `at` finds these two flags first and goes on behind the
/// second, provided that `carrier` holds no flag and does not end with the head of one.
proof fn lemma_flags_over_zone(text: Seq<char>, at: int, carrier: Seq<char>, payload: Seq<u8>)
    requires
        0 <= at,
        at + embed(carrier, payload).len() <= text.len(),
        text.subrange(at, at + embed(carrier, payload).len()) == embed(carrier, payload),
        flag_free(carrier),
        !ends_with_flag_head(carrier),
    ensures
        flags_from(text, at) == seq![
            at + carrier.len(),
            at + carrier.len() + 3 + 4 * payload.len(),
        ] + flags_from(text, at + embed(carrier, payload).len()),
        text.subrange(at + carrier.len() + 3, at + carrier.len() + 3 + 4 * payload.len())
            == encode(payload),
{
    let whole = embed(carrier, payload);
    let coded = encode(payload);
    let n = carrier.len() as int;
    let m = coded.len() as int;
    let open = at + n;
    let close = at + n + 3 + m;
    lemma_encoding_flag_free(payload);
    assert(whole.len() == n + m + 6);
    assert forall|i: int| 0 <= i < whole.len() implies text[at + i] == #[trigger] whole[i] by {
        assert(text.subrange(at, at + whole.len())[i] == text[at + i]);
    }
    assert forall|i: int| 0 <= i < n implies whole[i] == carrier[i] by {}
    assert(whole[n] == ZERO_WIDTH_SPACE && whole[n + 1] == HAIR_SPACE && whole[n + 2]
        == ZERO_WIDTH_SPACE);
    assert forall|i: int| 0 <= i < m implies whole[n + 3 + i] == coded[i] by {}
    assert(whole[n + 3 + m] == ZERO_WIDTH_SPACE && whole[n + 4 + m] == HAIR_SPACE && whole[n + 5
        + m] == ZERO_WIDTH_SPACE);

    assert forall|i: int| at <= i < open implies !flag_at(text, i) by {
        lemma_flag_at(text, i);
        let j = i - at;
        if j + 3 <= n {
            lemma_flag_at(carrier, j);
            assert(text[i] == whole[j] && text[i + 1] == whole[j + 1] && text[i + 2] == whole[j
                + 2]);
            assert(!flag_at(carrier, j));
        } else if j + 2 == n {
            assert(text[i] == whole[j] && text[i + 1] == whole[j + 1]);
            if text[i] == ZERO_WIDTH_SPACE && text[i + 1] == HAIR_SPACE {
                assert(carrier.subrange(n - 2, n) =~= ZONE_CODE@.take(2));
            }
        } else {
            assert(text[i + 1] == whole[j + 1]);
        }
    }
    lemma_flags_from_skip(text, at, open);
    assert(flag_at(text, open)) by {
        lemma_flag_at(text, open);
        assert(text[open] == whole[n] && text[open + 1] == whole[n + 1] && text[open + 2]
            == whole[n + 2]);
    }
    assert forall|i: int| open + 3 <= i < close implies !flag_at(text, i) by {
        lemma_flag_at(text, i);
        let j = i + 1 - at;
        assert(text[i + 1] == whole[j]);
        if j < n + 3 + m {
            assert(whole[j] == coded[j - n - 3]);
        }
    }
    lemma_flags_from_skip(text, open + 3, close);
    assert(flag_at(text, close)) by {
        lemma_flag_at(text, close);
        assert(text[close] == whole[n + 3 + m] && text[close + 1] == whole[n + 4 + m] && text[close
            + 2] == whole[n + 5 + m]);
    }
    assert(flags_from(text, at) =~= seq![open, close] + flags_from(text, close + 3));
    assert(text.subrange(open + 3, close) =~= coded) by {
        assert forall|i: int| 0 <= i < m implies text[open + 3 + i] == coded[i] by {
            assert(text[at + (n + 3 + i)] == whole[n + 3 + i]);
        }
    }
}

/// What was hidden behind a text is recovered from it, and nothing else.
///
/// This holds for every `source` that holds no zone flag and does not end with the
/// head of one, and for every payload, the empty one too.
pub proof fn lemma_recover_hidden_on_tail(source: Seq<char>, payload: Seq<u8>)
    requires
        flag_free(source),
        !ends_with_flag_head(source),
    ensures
        extract(embed(source, payload)) == Ok::<Seq<Result<Seq<u8>, CodecError>>, ExtractError>(
            seq![Ok(payload)],
        ),
{
    let text = embed(source, payload);
    assert(text.subrange(0, text.len() as int) =~= text);
    lemma_flags_over_zone(text, 0, source, payload);
    let positions = flags(text);
    assert(flags_from(text, text.len() as int) =~= Seq::<int>::empty());
    assert(positions =~= seq![source.len() as int, (source.len() + 3 + 4 * payload.len()) as int]);
    lemma_decode_encode(payload);
    assert(zone_text(text, positions, 0) == encode(payload));
    assert(Seq::new(positions.len() / 2, |k: int| decode(zone_text(text, positions, k))) =~= seq![
        Ok::<Seq<u8>, CodecError>(payload),
    ]);
}

/// The head of a flag at the end of a text spoils the zone hidden behind it.
///
/// Where `source` holds no zone flag but ends with the head of one, the search takes
/// that head and the first character of the opening flag for a flag. The zone then
/// begins two characters early and is reported as truncated.
pub proof fn lemma_flag_head_spoils_zone(source: Seq<char>, payload: Seq<u8>)
    requires
        flag_free(source),
        ends_with_flag_head(source),
    ensures
        extract(embed(source, payload)) == Ok::<Seq<Result<Seq<u8>, CodecError>>, ExtractError>(
            seq![Err(CodecError::TruncatedGroup)],
        ),
{
    let coded = encode(payload);
    let text = embed(source, payload);
    let n = source.len() as int;
    let m = coded.len() as int;
    let close = n + 3 + m;
    lemma_encoding_flag_free(payload);
    let tip = source.subrange(n - 2, n);
    assert(tip[0] == source[n - 2] && tip[1] == source[n - 1]);
    assert forall|i: int| 0 <= i < n implies text[i] == source[i] by {}
    assert(text[n] == ZERO_WIDTH_SPACE && text[n + 1] == HAIR_SPACE && text[n + 2]
        == ZERO_WIDTH_SPACE);
    assert forall|i: int| 0 <= i < m implies text[n + 3 + i] == coded[i] by {}
    assert(text[close] == ZERO_WIDTH_SPACE && text[close + 1] == HAIR_SPACE && text[close + 2]
        == ZERO_WIDTH_SPACE);
    assert forall|i: int| 0 <= i < n - 2 implies !flag_at(text, i) by {
        lemma_flag_at(text, i);
        lemma_flag_at(source, i);
        assert(!flag_at(source, i));
    }
    lemma_flags_from_skip(text, 0, n - 2);
    assert(flag_at(text, n - 2)) by {
        lemma_flag_at(text, n - 2);
    }
    assert forall|i: int| n + 1 <= i < close implies !flag_at(text, i) by {
        lemma_flag_at(text, i);
        if n + 3 <= i + 1 < close {
            assert(text[i + 1] == coded[i + 1 - n - 3]);
        }
    }
    lemma_flags_from_skip(text, n + 1, close);
    assert(flag_at(text, close)) by {
        lemma_flag_at(text, close);
    }
    assert(flags_from(text, close + 3) =~= Seq::<int>::empty());
    let positions = flags(text);
    assert(positions =~= seq![n - 2, close]);
    assert(zone_text(text, positions, 0).len() == m + 2);
    assert(Seq::new(positions.len() / 2, |k: int| decode(zone_text(text, positions, k))) =~= seq![
        Err::<Seq<u8>, CodecError>(CodecError::TruncatedGroup),
    ]);
}

/// Two payloads hidden one after the other are recovered in that order.
///
/// The second is hidden behind the text that holds the first, followed by `between`.
/// This holds where neither `source` nor `between` holds a zone flag or ends with the
/// head of one.
pub proof fn lemma_recover_two_zones(
    source: Seq<char>,
    first: Seq<u8>,
    between: Seq<char>,
    second: Seq<u8>,
)
    requires
        flag_free(source),
        !ends_with_flag_head(source),
        flag_free(between),
        !ends_with_flag_head(between),
    ensures
        embed(embed(source, first) + between, second) == embed(source, first) + embed(
            between,
            second,
        ),
        extract(embed(embed(source, first) + between, second)) == Ok::<
            Seq<Result<Seq<u8>, CodecError>>,
            ExtractError,
        >(seq![Ok(first), Ok(second)]),
{
    let head = embed(source, first);
    let tail = embed(between, second);
    let text = embed(head + between, second);
    assert(text =~= head + tail);
    assert(text.subrange(0, head.len() as int) =~= head);
    assert(text.subrange(head.len() as int, (head.len() + tail.len()) as int) =~= tail);
    lemma_flags_over_zone(text, 0, source, first);
    lemma_flags_over_zone(text, head.len() as int, between, second);
    assert(flags_from(text, text.len() as int) =~= Seq::<int>::empty());
    let positions = flags(text);
    let first_open: int = source.len() as int;
    let first_close: int = first_open + 3 + 4 * first.len();
    let second_open: int = head.len() as int + between.len();
    let second_close: int = second_open + 3 + 4 * second.len();
    assert(positions =~= seq![first_open, first_close, second_open, second_close]);
    lemma_decode_encode(first);
    lemma_decode_encode(second);
    assert(zone_text(text, positions, 0) == encode(first));
    assert(zone_text(text, positions, 1) == encode(second));
    assert(Seq::new(positions.len() / 2, |k: int| decode(zone_text(text, positions, k))) =~= seq![
        Ok::<Seq<u8>, CodecError>(first),
        Ok::<Seq<u8>, CodecError>(second),
    ]);
}

/// A zone that was opened and never closed is reported.
///
/// Where `source` holds no zone flag, `source` followed by one flag and an encoding
/// holds exactly one flag, so the extraction fails.
pub proof fn lemma_unclosed_zone_detected(source: Seq<char>, payload: Seq<u8>)
    requires
        flag_free(source),
    ensures
        extract(source + ZONE_CODE@ + encode(payload)) == Err::<
            Seq<Result<Seq<u8>, CodecError>>,
            ExtractError,
        >(ExtractError::UnmatchedDelimiter),
{
    let coded = encode(payload);
    let text = source + ZONE_CODE@ + coded;
    let n = source.len() as int;
    let m = coded.len() as int;
    lemma_encoding_flag_free(payload);
    assert(text[n] == ZERO_WIDTH_SPACE && text[n + 1] == HAIR_SPACE && text[n + 2]
        == ZERO_WIDTH_SPACE);
    assert forall|i: int| 0 <= i < m implies text[n + 3 + i] == coded[i] by {}
    // The first flag begins at the end of `source`, or two characters before it.
    let first = if ends_with_flag_head(source) {
        n - 2
    } else {
        n
    };
    assert forall|i: int| 0 <= i < first implies !flag_at(text, i) by {
        lemma_flag_at(text, i);
        if i + 3 <= n {
            lemma_flag_at(source, i);
            assert(text[i] == source[i] && text[i + 1] == source[i + 1] && text[i + 2] == source[i
                + 2]);
            assert(!flag_at(source, i));
        } else if i + 2 == n {
            assert(text[i] == source[i] && text[i + 1] == source[i + 1]);
            if text[i] == ZERO_WIDTH_SPACE && text[i + 1] == HAIR_SPACE {
                assert(source.subrange(n - 2, n) =~= ZONE_CODE@.take(2));
            }
        }
    }
    lemma_flags_from_skip(text, 0, first);
    assert(flag_at(text, first)) by {
        lemma_flag_at(text, first);
        if ends_with_flag_head(source) {
            let tip = source.subrange(n - 2, n);
            assert(tip[0] == source[n - 2] && tip[1] == source[n - 1]);
            assert(text[n - 2] == source[n - 2] && text[n - 1] == source[n - 1]);
        }
    }
    assert forall|i: int| first + 3 <= i < text.len() implies !flag_at(text, i) by {
        lemma_flag_at(text, i);
        if i + 3 <= text.len() {
            if i + 1 >= n + 3 {
                assert(text[i + 1] == coded[i + 1 - n - 3]);
            }
        }
    }
    lemma_flags_from_skip(text, first + 3, text.len() as int);
    assert(flags_from(text, text.len() as int) =~= Seq::<int>::empty());
    assert(flags(text) =~= seq![first]);
}

/// The text of the zone flag.
pub fn get_zone_flag() -> (flag: String)
    ensures
        flag@ == ZONE_CODE@,
{
    proof {
        reveal_strlit("\u{200B}\u{200A}\u{200B}");
    }
    let flag = String::from_str("\u{200B}\u{200A}\u{200B}");
    assert(flag@ =~= ZONE_CODE@);
    flag
}

/// Hides `to_hide` behind `source`.
///
/// The result is `source`, a zone flag, the encoding of `to_hide` and a second zone
/// flag. An empty payload gives two flags with nothing between them.
///
/// `recover_hidden` gives the payload back where `source` holds no zone flag and does
/// not end with the first two characters of one (`lemma_recover_hidden_on_tail`).
pub fn hide_on_tail(source: &str, to_hide: &[u8]) -> (res: String)
    ensures
        res@ == embed(source@, to_hide@),
{
    let zone_flag: String = get_zone_flag();
    let coded = to_base_4(to_hide);
    let mut res = String::from_str(source);
    res.append(zone_flag.as_str());
    res.append(coded.as_str());
    res.append(zone_flag.as_str());
    res
}

/// Finds the zone flags of `text`.
pub fn find_zone_flags(text: &[char]) -> (found: Vec<usize>)
    ensures
        found@.len() == flags(text@).len(),
        forall|k: int| 0 <= k < found@.len() ==> #[trigger] found@[k] as int == flags(text@)[k],
{
    let n = text.len();
    let mut found: Vec<usize> = Vec::new();
    if n < 3 {
        return found;
    }
    let ghost mut seen: Seq<int> = Seq::empty();
    let mut i: usize = 0;
    while i <= n - 3
        invariant
            n == text@.len(),
            n >= 3,
            seen.len() == found@.len(),
            forall|k: int| 0 <= k < found@.len() ==> #[trigger] found@[k] as int == seen[k],
            flags(text@) == seen + flags_from(text@, i as int),
        decreases n - i,
    {
        proof {
            lemma_flag_at(text@, i as int);
        }
        if text[i] == ZERO_WIDTH_SPACE && text[i + 1] == HAIR_SPACE && text[i + 2]
            == ZERO_WIDTH_SPACE {
            found.push(i);
            proof {
                assert(seen + (seq![i as int] + flags_from(text@, i + 3)) =~= seen.push(i as int)
                    + flags_from(text@, i + 3));
                seen = seen.push(i as int);
            }
            i += 3;
        } else {
            i += 1;
        }
    }
    assert(seen + Seq::<int>::empty() =~= seen);
    found
}

/// Recovers what is hidden in `source`.
///
/// Fails with `UnmatchedDelimiter` if `source` holds an odd number of zone flags.
/// Otherwise returns one entry for each zone, in the order of the text: the bytes
/// hidden in it, or the reason why the zone does not decode. A zone that does not
/// decode leaves the others as they are. A text without flags has no zones.
pub fn recover_hidden(source: &str) -> (res: Result<
    Vec<Result<Vec<u8>, CodecError>>,
    ExtractError,
>)
    ensures
        extracted_view(res) == extract(source@),
        res is Err <==> flags(source@).len() % 2 != 0,
        res matches Ok(zones) ==> zones@.len() == flags(source@).len() / 2 && forall|k: int|
            0 <= k < zones@.len() ==> decoded_view(#[trigger] zones@[k]) == decode(
                zone_text(source@, flags(source@), k),
            ),
{
    let text = to_chars(source);
    let found = find_zone_flags(text.as_slice());
    let ghost positions = flags(text@);
    proof {
        lemma_flags_from_spaced(text@, 0);
    }
    if found.len() % 2 != 0 {
        return Err(ExtractError::UnmatchedDelimiter);
    }
    let mut zones: Vec<Result<Vec<u8>, CodecError>> = Vec::new();
    let mut i: usize = 0;
    while i < found.len()
        invariant
            positions == flags(text@),
            found@.len() == positions.len(),
            forall|k: int| 0 <= k < found@.len() ==> #[trigger] found@[k] as int == positions[k],
            spaced_flags(text@, positions, 0),
            found@.len() % 2 == 0,
            i % 2 == 0,
            i <= found@.len(),
            zones@.len() == i / 2,
            forall|k: int|
                0 <= k < zones@.len() ==> decoded_view(#[trigger] zones@[k]) == decode(
                    zone_text(text@, positions, k),
                ),
        decreases found@.len() - i,
    {
        let opening = found[i];
        let closing = found[i + 1];
        assert(opening as int == positions[i as int] && closing as int == positions[i + 1]);
        assert(flag_at(text@, opening as int) && opening + 3 <= closing);
        let hidden = slice_subrange(text.as_slice(), opening + 3, closing);
        assert(hidden@ == zone_text(text@, positions, i as int / 2));
        let recovered = decode_symbols(hidden);
        zones.push(recovered);
        i += 2;
    }
    assert(zones@.map_values(|zone: Result<Vec<u8>, CodecError>| decoded_view(zone)) =~= Seq::new(
        positions.len() / 2,
        |k: int| decode(zone_text(text@, positions, k)),
    ));
    Ok(zones)
}

} // verus!
