//! From a parsed document to a dictionary, and the entry points that parse
//! bytes.

use crate::dictionary::MsgDictionary;
use crate::lexer::{error_text, snippet, tokenize_msg, tokenize_spec, EntryView, Line, Token};
use crate::msg_line::{LineView, MsgLine};
use vstd::prelude::*;
use vstd::slice::slice_to_vec;
use vstd::utf8::*;

verus! {

/// The entry records of a document, in document order.
pub open spec fn entries_of(ts: Seq<Token>) -> Seq<EntryView>
    decreases ts.len(),
{
    if ts.len() == 0 {
        Seq::empty()
    } else {
        let rest = entries_of(ts.drop_last());
        match ts.last() {
            Token::Entry(e) => rest.push(e),
            _ => rest,
        }
    }
}

/// The values of the entries with primary index `k`, in document order.
pub open spec fn values_for(es: Seq<EntryView>, k: u32) -> Seq<Seq<u8>>
    decreases es.len(),
{
    if es.len() == 0 {
        Seq::empty()
    } else {
        let rest = values_for(es.drop_last(), k);
        if es.last().index == k {
            rest.push(es.last().value)
        } else {
            rest
        }
    }
}

pub open spec fn malformed_message(e: EntryView) -> Seq<char> {
    "Non-empty secondary key: "@ + snippet(e.secondary)
}

/// The message for the first entry whose secondary field is not empty, if any.
pub open spec fn first_malformed(es: Seq<EntryView>) -> Option<Seq<char>>
    decreases es.len(),
{
    if es.len() == 0 {
        None
    } else {
        match first_malformed(es.drop_last()) {
            Some(m) => Some(m),
            None => if es.last().secondary.len() > 0 {
                Some(malformed_message(es.last()))
            } else {
                None
            },
        }
    }
}

/// What the built-in converter stores for a value field: its text when the
/// bytes are valid UTF-8, else the bytes themselves.
pub open spec fn utf8_view(b: Seq<u8>) -> LineView {
    if valid_utf8(b) {
        LineView::Text(decode_utf8(b))
    } else {
        LineView::Bytes(b)
    }
}

/// The dictionary contents that `es` gives when each value goes through the
/// built-in converter.
pub open spec fn contents(es: Seq<EntryView>) -> Map<u32, Seq<LineView>> {
    Map::new(
        |k: u32| values_for(es, k).len() > 0,
        |k: u32| values_for(es, k).map_values(|b: Seq<u8>| utf8_view(b)),
    )
}

/// What `parse_msg` gives on `s`: the dictionary contents, or the error message.
pub open spec fn parse_msg_spec(s: Seq<u8>) -> Result<Map<u32, Seq<LineView>>, Seq<char>> {
    match tokenize_spec(s, true) {
        Err(e) => Err(e),
        Ok(ts) => match first_malformed(entries_of(ts)) {
            Some(m) => Err(m),
            None => Ok(contents(entries_of(ts))),
        },
    }
}

/// `v` is what `f` may return for some input with bytes `b`.
pub open spec fn converted_by<F: Fn(&[u8]) -> MsgLine>(f: F, b: Seq<u8>, v: LineView) -> bool {
    exists|x: &[u8], m: MsgLine| x@ == b && #[trigger] f.ensures((x,), m) && m@ == v
}

proof fn lemma_values_bounded(es: Seq<EntryView>, k: u32)
    ensures
        values_for(es, k).len() <= es.len(),
    decreases es.len(),
{
    if es.len() > 0 {
        lemma_values_bounded(es.drop_last(), k);
    }
}

/// Builds the dictionary of a document whose value fields go through
/// `line_converter`. Fails, with the first offending entry, on an entry whose
/// secondary field is not empty.
pub fn build_dictionary<F: Fn(&[u8]) -> MsgLine>(lines: &Vec<Line>, line_converter: &F) -> (r: Result<
    MsgDictionary,
    String,
>)
    requires
        lines@.len() < u32::MAX,
        forall|x: &[u8]| line_converter.requires((x,)),
    ensures
        ({
            let es = entries_of(lines@.map_values(|l: Line| l@));
            match first_malformed(es) {
                Some(m) => r matches Err(e) && e@ == m,
                None => r matches Ok(d) && d.wf() && forall|k: u32|
                    #![trigger d.values_of(k)]
                    d.values_of(k).len() == values_for(es, k).len() && forall|j: int|
                        0 <= j < values_for(es, k).len() ==> converted_by(
                            *line_converter,
                            values_for(es, k)[j],
                            d.values_of(k)[j],
                        ),
            }
        }),
{
    let ghost ts = lines@.map_values(|l: Line| l@);
    let mut dict = MsgDictionary::new();
    let mut i: usize = 0;
    while i < lines.len()
        invariant
            ts == lines@.map_values(|l: Line| l@),
            lines@.len() < u32::MAX,
            forall|x: &[u8]| line_converter.requires((x,)),
            i <= lines@.len(),
            dict.wf(),
            first_malformed(entries_of(ts.take(i as int))) is None,
            entries_of(ts.take(i as int)).len() <= i,
            forall|k: u32|
                #![trigger dict.values_of(k)]
                dict.values_of(k).len() == values_for(entries_of(ts.take(i as int)), k).len()
                    && forall|j: int|
                    0 <= j < dict.values_of(k).len() ==> converted_by(
                        *line_converter,
                        values_for(entries_of(ts.take(i as int)), k)[j],
                        dict.values_of(k)[j],
                    ),
        decreases lines@.len() - i,
    {
        let ghost es0 = entries_of(ts.take(i as int));
        assert(ts.take(i + 1).drop_last() =~= ts.take(i as int));
        assert(ts.take(i + 1).last() == ts[i as int]);
        match &lines[i] {
            Line::Entry(entry) => {
                let ghost es1 = es0.push(entry@);
                assert(entries_of(ts.take(i + 1)) == es1);
                assert(es1.drop_last() =~= es0);
                if entry.secondary.len() > 0 {
                    let msg = error_text("Non-empty secondary key: ", entry.secondary.as_slice(), 0);
                    assert(entry.secondary@.subrange(0, entry.secondary@.len() as int)
                        =~= entry.secondary@);
                    proof {
                        assert(first_malformed(es1) == Some(malformed_message(entry@)));
                        assert(ts.take(lines@.len() as int) =~= ts);
                        lemma_first_malformed_prefix(ts, i as int + 1);
                        assert(msg@ =~= malformed_message(entry@));
                    }
                    return Err(msg);
                }
                let x = entry.value.as_slice();
                let v = line_converter(x);
                let ghost gv = v;
                proof {
                    lemma_values_bounded(es0, entry.index);
                    dict.lemma_groups_bounded();
                }
                let ghost pre = dict;
                dict.insert(entry.index, v);
                proof {
                    assert(converted_by(*line_converter, entry.value@, gv@));
                    assert forall|k: u32|
                        #![trigger dict.values_of(k)]
                        dict.values_of(k).len() == values_for(es1, k).len() && forall|j: int|
                            0 <= j < dict.values_of(k).len() ==> converted_by(
                                *line_converter,
                                values_for(es1, k)[j],
                                dict.values_of(k)[j],
                            ) by {
                        assert(pre.values_of(k).len() == values_for(es0, k).len());
                        if k == entry.index {
                            assert(dict.values_of(k) == pre.values_of(k).push(gv@));
                        } else {
                            assert(dict.values_of(k) == pre.values_of(k));
                        }
                    }
                }
            },
            _ => {
                assert(entries_of(ts.take(i + 1)) == es0);
            },
        }
        i = i + 1;
    }
    assert(ts.take(i as int) =~= ts);
    Ok(dict)
}

proof fn lemma_first_malformed_prefix(ts: Seq<Token>, n: int)
    requires
        0 <= n <= ts.len(),
        first_malformed(entries_of(ts.take(n))) is Some,
    ensures
        first_malformed(entries_of(ts)) == first_malformed(entries_of(ts.take(n))),
    decreases ts.len() - n,
{
    if n < ts.len() {
        let t1 = ts.take(n + 1);
        assert(t1.drop_last() =~= ts.take(n));
        let es = entries_of(t1);
        match t1.last() {
            Token::Entry(e) => {
                assert(es.drop_last() =~= entries_of(ts.take(n)));
            },
            _ => {},
        }
        lemma_first_malformed_prefix(ts, n + 1);
    } else {
        assert(ts.take(n) =~= ts);
    }
}

/// Relies on `std::str::from_utf8` (the text then copied by `str::to_owned`):
/// the bytes are accepted exactly when they are valid UTF-8, and then stand for
/// the characters they decode to.
#[verifier::external_body]
fn utf8_text(b: &[u8]) -> (r: Option<String>)
    ensures
        match r {
            Some(s) => valid_utf8(b@) && s@ == decode_utf8(b@),
            None => !valid_utf8(b@),
        },
{
    match std::str::from_utf8(b) {
        Ok(s) => Some(s.to_owned()),
        Err(_) => None,
    }
}

/// The built-in converter: text for valid UTF-8, else the bytes unchanged.
pub fn utf8_line(bytes: &[u8]) -> (r: MsgLine)
    ensures
        r@ == utf8_view(bytes@),
{
    match utf8_text(bytes) {
        Some(s) => MsgLine::String(s),
        None => MsgLine::Bytes(slice_to_vec(bytes)),
    }
}

/// The text that the Windows-1251 decoder gives for `b`, or `None` where it
/// reports malformed input.
pub uninterp spec fn windows_1251_text(b: Seq<u8>) -> Option<Seq<char>>;

/// Relies on `encoding_rs::Encoding::decode` on `WINDOWS_1251`: its text, or
/// `None` where its third result (`had_errors`) reports malformed input. The
/// result depends on the bytes alone.
#[verifier::external_body]
fn decode_windows_1251(b: &[u8]) -> (r: Option<String>)
    ensures
        match r {
            Some(s) => windows_1251_text(b@) == Some(s@),
            None => windows_1251_text(b@) is None,
        },
{
    let (text, _encoding, had_errors) = encoding_rs::WINDOWS_1251.decode(b);
    if had_errors {
        None
    } else {
        Some(text.into_owned())
    }
}

/// The value to store for `bytes` given what a decoder made of them: the
/// decoded text, or the bytes unchanged where decoding failed.
pub fn line_from_decoded(bytes: &[u8], decoded: Option<String>) -> (r: MsgLine)
    ensures
        r@ == match decoded {
            Some(s) => LineView::Text(s@),
            None => LineView::Bytes(bytes@),
        },
{
    match decoded {
        Some(s) => MsgLine::String(s),
        None => MsgLine::Bytes(slice_to_vec(bytes)),
    }
}

/// Converter for legacy Windows-1251 tables: the decoded text, falling back to
/// the raw bytes where the decoder reports malformed input.
pub fn cp1251_line(bytes: &[u8]) -> (r: MsgLine)
    ensures
        r@ == match windows_1251_text(bytes@) {
            Some(t) => LineView::Text(t),
            None => LineView::Bytes(bytes@),
        },
{
    line_from_decoded(bytes, decode_windows_1251(bytes))
}

/// Parses a whole document (no input may be left over) and stores each value
/// field as `line_converter` makes it.
pub fn parse_msg_ext<F: Fn(&[u8]) -> MsgLine>(input: &[u8], line_converter: F) -> (r: Result<
    MsgDictionary,
    String,
>)
    requires
        input@.len() + 1 < u32::MAX,
        forall|x: &[u8]| line_converter.requires((x,)),
    ensures
        match tokenize_spec(input@, true) {
            Err(e) => r matches Err(e2) && e2@ == e,
            Ok(ts) => match first_malformed(entries_of(ts)) {
                Some(m) => r matches Err(e2) && e2@ == m,
                None => r matches Ok(d) && d.wf() && forall|k: u32|
                    #![trigger d.values_of(k)]
                    d.values_of(k).len() == values_for(entries_of(ts), k).len() && forall|j: int|
                        0 <= j < values_for(entries_of(ts), k).len() ==> converted_by(
                            line_converter,
                            values_for(entries_of(ts), k)[j],
                            d.values_of(k)[j],
                        ),
            },
        },
{
    let msg = tokenize_msg(input, true)?;
    build_dictionary(&msg.lines, &line_converter)
}

/// Parses a whole document (no input may be left over), storing each value as
/// text when it is valid UTF-8 and as raw bytes otherwise.
pub fn parse_msg(input: &[u8]) -> (r: Result<MsgDictionary, String>)
    requires
        input@.len() + 1 < u32::MAX,
    ensures
        match parse_msg_spec(input@) {
            Ok(m) => r matches Ok(d) && d.wf() && d@ == m,
            Err(e) => r matches Err(e2) && e2@ == e,
        },
{
    let r = parse_msg_ext(input, utf8_line);
    proof {
        if r is Ok && tokenize_spec(input@, true) is Ok {
            let d = r->Ok_0;
            let ts = tokenize_spec(input@, true)->Ok_0;
            {
                let es = entries_of(ts);
                d.lemma_groups_bounded();
                assert forall|k: u32| #[trigger] d.values_of(k) =~= values_for(es, k).map_values(
                    |b: Seq<u8>| utf8_view(b),
                ) by {
                    assert forall|j: int| 0 <= j < d.values_of(k).len() implies d.values_of(k)[j]
                        == utf8_view(values_for(es, k)[j]) by {
                        assert(converted_by(utf8_line, values_for(es, k)[j], d.values_of(k)[j]));
                        let (x, m) = choose|x: &[u8], m: MsgLine|
                            x@ == values_for(es, k)[j] && #[trigger] utf8_line.ensures((x,), m)
                                && m@ == d.values_of(k)[j];
                    }
                }
                assert forall|k: u32| #[trigger] d@.contains_key(k) == contents(es).contains_key(k) by {
                    assert(d.values_of(k).len() == values_for(es, k).len());
                }
                assert forall|k: u32| #[trigger] d@.contains_key(k) implies d@[k] == contents(
                    es,
                )[k] by {
                    assert(d.values_of(k) == d@[k]);
                }
                assert(d@ =~= contents(es));
            }
        }
    }
    r
}

} // verus!
