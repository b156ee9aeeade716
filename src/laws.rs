//! Properties of parsing that hold for every input.

use crate::lexer::{tokenize_spec, EntryView, Token};
use crate::msg_line::LineView;
use crate::parser::{contents, entries_of, parse_msg_spec, utf8_view, values_for};
use vstd::prelude::*;
use vstd::utf8::*;

verus! {

/// Every value that `parse_msg` stores gives back exactly the bytes of its
/// value field, and is text exactly when those bytes are valid UTF-8.
pub proof fn lemma_stored_bytes_exact(s: Seq<u8>)
    requires
        parse_msg_spec(s) is Ok,
    ensures
        ({
            let m = parse_msg_spec(s)->Ok_0;
            let es = entries_of(tokenize_spec(s, true)->Ok_0);
            forall|k: u32, j: int|
                #![trigger m[k][j]]
                m.contains_key(k) && 0 <= j < m[k].len() ==> m[k][j].bytes() == values_for(es, k)[j]
                    && (m[k][j].text() is Some <==> valid_utf8(values_for(es, k)[j]))
        }),
{
    let m = parse_msg_spec(s)->Ok_0;
    let es = entries_of(tokenize_spec(s, true)->Ok_0);
    assert(m == contents(es));
    assert forall|k: u32, j: int|
        #![trigger m[k][j]]
        m.contains_key(k) && 0 <= j < m[k].len() implies m[k][j].bytes() == values_for(es, k)[j]
            && (m[k][j].text() is Some <==> valid_utf8(values_for(es, k)[j])) by {
        let b = values_for(es, k)[j];
        assert(m[k][j] == utf8_view(b));
        if valid_utf8(b) {
            decode_utf8_encode_utf8(b);
        }
    }
}

proof fn lemma_values_prefix(es: Seq<EntryView>, n: int, k: u32)
    requires
        0 <= n <= es.len(),
    ensures
        values_for(es.take(n), k).len() <= values_for(es, k).len(),
        values_for(es.take(n), k) == values_for(es, k).take(values_for(es.take(n), k).len() as int),
    decreases es.len(),
{
    if n == es.len() {
        assert(es.take(n) =~= es);
        assert(values_for(es, k).take(values_for(es, k).len() as int) =~= values_for(es, k));
    } else {
        lemma_values_prefix(es.drop_last(), n, k);
        assert(es.drop_last().take(n) =~= es.take(n));
        let p = values_for(es.take(n), k);
        let w = values_for(es.drop_last(), k);
        if es.last().index == k {
            assert(w.push(es.last().value).take(p.len() as int) =~= w.take(p.len() as int));
        }
    }
}

/// Sub-indices follow document order: the entry at position `i` of a
/// document's entries gets, under its primary index, the sub-index equal to the
/// number of earlier entries with that index.
pub proof fn lemma_sub_index_order(es: Seq<EntryView>, i: int)
    requires
        0 <= i < es.len(),
    ensures
        values_for(es.take(i), es[i].index).len() < values_for(es, es[i].index).len(),
        values_for(es, es[i].index)[values_for(es.take(i), es[i].index).len() as int]
            == es[i].value,
{
    let k = es[i].index;
    let t = es.take(i + 1);
    assert(t.drop_last() =~= es.take(i));
    assert(t.last() == es[i]);
    assert(values_for(t, k) == values_for(es.take(i), k).push(es[i].value));
    lemma_values_prefix(es, i + 1, k);
    let n = values_for(es.take(i), k).len() as int;
    assert(values_for(t, k)[n] == es[i].value);
    assert(values_for(es, k).take(n + 1)[n] == values_for(es, k)[n]);
}

/// A comment or blank line, wherever it is added to a document, leaves its
/// entries, and so the dictionary built from it, unchanged.
pub proof fn lemma_non_entry_ignored(ts: Seq<Token>, i: int, t: Token)
    requires
        0 <= i <= ts.len(),
        !(t is Entry),
    ensures
        entries_of(ts.insert(i, t)) == entries_of(ts),
    decreases ts.len(),
{
    let u = ts.insert(i, t);
    if i == ts.len() {
        assert(u.drop_last() =~= ts);
    } else {
        lemma_non_entry_ignored(ts.drop_last(), i, t);
        assert(u.drop_last() =~= ts.drop_last().insert(i, t));
        assert(u.last() == ts.last());
    }
}

/// Two documents with the same entries, whatever comments and blank lines
/// stand between them, parse to the same dictionary.
pub proof fn lemma_only_entries_matter(s1: Seq<u8>, s2: Seq<u8>)
    requires
        tokenize_spec(s1, true) is Ok,
        tokenize_spec(s2, true) is Ok,
        entries_of(tokenize_spec(s1, true)->Ok_0) == entries_of(tokenize_spec(s2, true)->Ok_0),
    ensures
        parse_msg_spec(s1) == parse_msg_spec(s2),
{
}

/// Parsing is a function of the input: the same input gives the same result.
pub proof fn lemma_parse_deterministic(s1: Seq<u8>, s2: Seq<u8>)
    requires
        s1 == s2,
    ensures
        parse_msg_spec(s1) == parse_msg_spec(s2),
{
}

proof fn lemma_no_entries(ts: Seq<Token>)
    requires
        forall|i: int| 0 <= i < ts.len() ==> !(#[trigger] ts[i] is Entry),
    ensures
        entries_of(ts).len() == 0,
    decreases ts.len(),
{
    if ts.len() > 0 {
        lemma_no_entries(ts.drop_last());
    }
}

/// A document made only of comments and blank lines parses to an empty
/// dictionary.
pub proof fn lemma_no_entries_empty(s: Seq<u8>)
    requires
        tokenize_spec(s, true) is Ok,
        forall|i: int|
            0 <= i < tokenize_spec(s, true)->Ok_0.len() ==> !(#[trigger] tokenize_spec(
                s,
                true,
            )->Ok_0[i] is Entry),
    ensures
        parse_msg_spec(s) == Ok::<Map<u32, Seq<LineView>>, Seq<char>>(
            Map::empty(),
        ),
{
    let es = entries_of(tokenize_spec(s, true)->Ok_0);
    lemma_no_entries(tokenize_spec(s, true)->Ok_0);
    assert(es =~= Seq::<EntryView>::empty());
    assert(contents(es) =~= Map::empty());
}

/// Empty input parses to an empty dictionary.
pub proof fn lemma_empty_input()
    ensures
        parse_msg_spec(Seq::empty()) == Ok::<Map<u32, Seq<LineView>>, Seq<char>>(
            Map::empty(),
        ),
{
    let s = Seq::<u8>::empty();
    assert(tokenize_spec(s, true) == Ok::<Seq<Token>, Seq<char>>(seq![Token::Break]));
    lemma_no_entries_empty(s);
}

} // verus!
