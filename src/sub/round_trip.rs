//! Writing a parsed document and reading it back gives the same entries.
use vstd::prelude::*;

use crate::text::{
    is_blank, lemma_decimal_digits, lemma_decimal_trim, lemma_lines_plain, lemma_one_line,
    lemma_plain_concat, lemma_plain_zero_pad, lemma_split_concat, lines_of, plain, split_state,
    decimal, zero_pad,
};
use super::srt::{
    block_end, clock_text, doc_text, entry_text, join_lines, lemma_block_end_bounds,
    lemma_range_line_round_trip, lemma_time_line_bounded, parse_doc, parse_from, range_text,
    timestamp_text, time_line_spec, EntryView, SrtErrorView, MAX_TS_MS,
};
use crate::text::parse_u32_spec;
use crate::text::trim;
use crate::text::cr_ends_lines;

verus! {

/// A text line as the reader keeps it: not blank, without line breaks.
pub open spec fn text_line_ok(l: Seq<char>) -> bool {
    !is_blank(l) && plain(l)
}

/// An entry as the reader produces it from a text whose carriage returns
/// all end lines: a valid range, and text made of such lines.
pub open spec fn entry_ok(e: EntryView) -> bool {
    &&& 0 <= e.beg <= e.end < MAX_TS_MS
    &&& exists|tl: Seq<Seq<char>>|
        #[trigger] join_lines(tl) == e.text && forall|k: int|
            0 <= k < tl.len() ==> text_line_ok(#[trigger] tl[k])
}

/// The lines an entry is written as: index, range, its text lines (one
/// empty line for empty text), and a blank separator.
pub open spec fn entry_lines(e: EntryView, tl: Seq<Seq<char>>) -> Seq<Seq<char>> {
    seq![decimal(e.index as nat), range_text(e.beg, e.end)] + (if tl.len() == 0 {
        seq![Seq::<char>::empty()]
    } else {
        tl
    }) + seq![Seq::<char>::empty()]
}

proof fn lemma_plain_clock(a: nat)
    ensures
        plain(clock_text(a)),
{
    let ms = a % 1000;
    let secs = a / 1000;
    let s = secs % 60;
    let mins = secs / 60;
    let m = mins % 60;
    let h = mins / 60;
    lemma_decimal_digits(h);
    lemma_decimal_digits(m);
    lemma_decimal_digits(s);
    lemma_decimal_digits(ms);
    lemma_plain_zero_pad(decimal(h), 2);
    lemma_plain_zero_pad(decimal(m), 2);
    lemma_plain_zero_pad(decimal(s), 2);
    lemma_plain_zero_pad(decimal(ms), 3);
    assert(plain(seq![':']));
    assert(plain(seq![',']));
    let part1 = zero_pad(decimal(h), 2) + seq![':'];
    lemma_plain_concat(zero_pad(decimal(h), 2), seq![':']);
    let part2 = part1 + zero_pad(decimal(m), 2);
    lemma_plain_concat(part1, zero_pad(decimal(m), 2));
    let part3 = part2 + seq![':'];
    lemma_plain_concat(part2, seq![':']);
    let part4 = part3 + zero_pad(decimal(s), 2);
    lemma_plain_concat(part3, zero_pad(decimal(s), 2));
    let part5 = part4 + seq![','];
    lemma_plain_concat(part4, seq![',']);
    lemma_plain_concat(part5, zero_pad(decimal(ms), 3));
}

proof fn lemma_plain_range(b: int, e: int)
    requires
        0 <= b,
        0 <= e,
    ensures
        plain(range_text(b, e)),
{
    lemma_plain_clock(b as nat);
    lemma_plain_clock(e as nat);
    let arrow = seq![' ', '-', '-', '>', ' '];
    assert(plain(arrow));
    lemma_plain_concat(timestamp_text(b), arrow);
    lemma_plain_concat(timestamp_text(b) + arrow, timestamp_text(e));
}

/// Text lines joined with `'\n'` and ended by `'\n'` split back into them.
proof fn lemma_join_split(tl: Seq<Seq<char>>)
    requires
        tl.len() > 0,
        forall|k: int| 0 <= k < tl.len() ==> plain(#[trigger] tl[k]),
    ensures
        split_state(join_lines(tl).push('\n')) == (tl, Seq::<char>::empty()),
    decreases tl.len(),
{
    if tl.len() == 1 {
        lemma_one_line(tl[0]);
        assert(seq![tl[0]] =~= tl);
    } else {
        let init = tl.drop_last();
        let last = tl.last();
        assert forall|k: int| 0 <= k < init.len() implies plain(#[trigger] init[k]) by {
            assert(init[k] == tl[k]);
        }
        lemma_join_split(init);
        lemma_one_line(last);
        let a = join_lines(init).push('\n');
        lemma_split_concat(a, last.push('\n'));
        assert(join_lines(tl).push('\n') =~= a + last.push('\n'));
        assert(init + seq![last] =~= tl);
    }
}

/// How an entry's written text splits into lines.
#[verifier::spinoff_prover]
proof fn lemma_entry_lines(e: EntryView, tl: Seq<Seq<char>>)
    requires
        0 <= e.beg,
        0 <= e.end,
        join_lines(tl) == e.text,
        forall|k: int| 0 <= k < tl.len() ==> text_line_ok(#[trigger] tl[k]),
    ensures
        split_state(entry_text(e)) == (entry_lines(e, tl), Seq::<char>::empty()),
        lines_of(entry_text(e)) == entry_lines(e, tl),
{
    let dec = decimal(e.index as nat);
    let rng = range_text(e.beg, e.end);
    lemma_decimal_digits(e.index as nat);
    lemma_plain_range(e.beg, e.end);
    let s1 = dec.push('\n');
    let s2 = rng.push('\n');
    let s3 = e.text.push('\n');
    let s4 = Seq::<char>::empty().push('\n');
    lemma_one_line(dec);
    lemma_one_line(rng);
    assert(plain(Seq::<char>::empty()));
    lemma_one_line(Seq::<char>::empty());
    let tls = if tl.len() == 0 {
        seq![Seq::<char>::empty()]
    } else {
        tl
    };
    if tl.len() == 0 {
        assert(e.text == Seq::<char>::empty());
    } else {
        assert forall|k: int| 0 <= k < tl.len() implies plain(#[trigger] tl[k]) by {
            assert(text_line_ok(tl[k]));
        }
        lemma_join_split(tl);
    }
    lemma_append_lines(s1, seq![dec], s2, seq![rng]);
    lemma_append_lines(s1 + s2, seq![dec] + seq![rng], s3, tls);
    lemma_append_lines(s1 + s2 + s3, seq![dec] + seq![rng] + tls, s4, seq![Seq::<char>::empty()]);
    assert(entry_text(e) =~= s1 + s2 + s3 + s4);
    assert(seq![dec] + seq![rng] + tls + seq![Seq::<char>::empty()] =~= entry_lines(e, tl));
}

/// Whole lines followed by whole lines.
proof fn lemma_append_lines(p: Seq<char>, pl: Seq<Seq<char>>, q: Seq<char>, ql: Seq<Seq<char>>)
    requires
        split_state(p) == (pl, Seq::<char>::empty()),
        split_state(q) == (ql, Seq::<char>::empty()),
    ensures
        split_state(p + q) == (pl + ql, Seq::<char>::empty()),
{
    lemma_split_concat(p, q);
}

proof fn lemma_block_end_at(ls: Seq<Seq<char>>, k: int, m: int)
    requires
        0 <= k,
        0 <= m,
        k + m < ls.len(),
        forall|x: int| k <= x < k + m ==> !is_blank(#[trigger] ls[x]),
        is_blank(ls[k + m]),
    ensures
        block_end(ls, k) == k + m,
    decreases m,
{
    if m > 0 {
        lemma_block_end_at(ls, k + 1, m - 1);
    }
}

proof fn lemma_block_end_nonblank(ls: Seq<Seq<char>>, k: int)
    requires
        0 <= k <= ls.len(),
    ensures
        forall|x: int| k <= x < block_end(ls, k) ==> !is_blank(#[trigger] ls[x]),
    decreases ls.len() - k,
{
    if k < ls.len() && !is_blank(ls[k]) {
        lemma_block_end_nonblank(ls, k + 1);
    }
}

/// The index line and range line of a written entry read back as its
/// index and range.
proof fn lemma_entry_head(ls: Seq<Seq<char>>, i: int, e: EntryView)
    requires
        0 <= i,
        i + 1 < ls.len(),
        0 <= e.beg <= e.end < MAX_TS_MS,
        ls[i] == decimal(e.index as nat),
        ls[i + 1] == range_text(e.beg, e.end),
    ensures
        !is_blank(ls[i]),
        parse_u32_spec(trim(ls[i])) == Some(e.index),
        time_line_spec(ls[i + 1]) == Ok::<(int, int), SrtErrorView>((e.beg, e.end)),
{
    lemma_decimal_trim(e.index as nat);
    lemma_range_line_round_trip(e.beg, e.end);
}

/// The text block of a written entry ends at its blank separator and
/// joins back into the entry's text.
proof fn lemma_entry_block(ls: Seq<Seq<char>>, i: int, e: EntryView, tl: Seq<Seq<char>>)
    requires
        0 <= i,
        join_lines(tl) == e.text,
        forall|k: int| 0 <= k < tl.len() ==> text_line_ok(#[trigger] tl[k]),
        i + entry_lines(e, tl).len() <= ls.len(),
        forall|x: int| 0 <= x < entry_lines(e, tl).len() ==> ls[i + x] == #[trigger] entry_lines(e, tl)[x],
    ensures
        block_end(ls, i + 2) == i + 2 + tl.len(),
        join_lines(ls.subrange(i + 2, i + 2 + tl.len())) == e.text,
        is_blank(ls[i + 2 + tl.len()]),
        tl.len() == 0 ==> is_blank(ls[i + 3]) && entry_lines(e, tl).len() == 4,
        tl.len() > 0 ==> entry_lines(e, tl).len() == tl.len() + 3,
{
    let g = entry_lines(e, tl);
    let m = tl.len() as int;
    let blank = Seq::<char>::empty();
    assert(is_blank(blank)) by {
        assert(trim(blank) == blank);
    }
    if m > 0 {
        assert forall|x: int| i + 2 <= x < i + 2 + m implies !is_blank(#[trigger] ls[x]) by {
            assert(ls[i + (x - i)] == g[x - i]);
            assert(g[x - i] == tl[x - i - 2]);
            assert(text_line_ok(tl[x - i - 2]));
        }
        assert(ls[i + (2 + m)] == g[2 + m]);
        lemma_block_end_at(ls, i + 2, m);
        assert(ls.subrange(i + 2, i + 2 + m) =~= tl) by {
            assert forall|x: int| 0 <= x < m implies ls.subrange(i + 2, i + 2 + m)[x] == tl[x] by {
                assert(ls[i + (2 + x)] == g[2 + x]);
            }
        }
    } else {
        assert(ls[i + 2] == g[2]);
        assert(ls[i + 3] == g[3]);
        lemma_block_end_at(ls, i + 2, 0);
        assert(ls.subrange(i + 2, i + 2) =~= Seq::<Seq<char>>::empty());
    }
}

/// Reading the lines of one written entry gives that entry.
#[verifier::spinoff_prover]
proof fn lemma_parse_entry(
    ls: Seq<Seq<char>>,
    i: int,
    e: EntryView,
    tl: Seq<Seq<char>>,
    acc: Seq<EntryView>,
)
    requires
        0 <= i,
        0 <= e.beg <= e.end < MAX_TS_MS,
        join_lines(tl) == e.text,
        forall|k: int| 0 <= k < tl.len() ==> text_line_ok(#[trigger] tl[k]),
        i + entry_lines(e, tl).len() <= ls.len(),
        ls.subrange(i, i + entry_lines(e, tl).len()) == entry_lines(e, tl),
    ensures
        parse_from(ls, i, acc) == parse_from(ls, i + entry_lines(e, tl).len(), acc.push(e)),
{
    let g = entry_lines(e, tl);
    assert forall|x: int| 0 <= x < g.len() implies ls[i + x] == #[trigger] g[x] by {
        assert(ls.subrange(i, i + g.len())[x] == ls[i + x]);
    }
    assert(ls[i + 0] == g[0]);
    assert(ls[i + 1] == g[1]);
    lemma_entry_head(ls, i, e);
    lemma_entry_block(ls, i, e, tl);
    let j = i + 2 + tl.len();
    assert(e == EntryView {
        index: e.index,
        beg: e.beg,
        end: e.end,
        text: join_lines(ls.subrange(i + 2, j)),
    });
    assert(parse_from(ls, i, acc) == parse_from(ls, j + 1, acc.push(e)));
    if tl.len() == 0 {
        assert(parse_from(ls, i + 3, acc.push(e)) == parse_from(ls, i + 4, acc.push(e)));
    }
}

proof fn lemma_doc_text_concat(a: Seq<EntryView>, b: Seq<EntryView>)
    ensures
        doc_text(a + b) == doc_text(a) + doc_text(b),
    decreases b.len(),
{
    if b.len() == 0 {
        assert(a + b =~= a);
        assert(doc_text(a) + doc_text(b) =~= doc_text(a));
    } else {
        lemma_doc_text_concat(a, b.drop_last());
        assert((a + b).drop_last() =~= a + b.drop_last());
        assert((a + b).last() == b.last());
        assert(doc_text(a + b) =~= doc_text(a) + doc_text(b));
    }
}

proof fn lemma_doc_text_ends_line(es: Seq<EntryView>)
    ensures
        split_state(doc_text(es)).1.len() == 0,
{
    if es.len() > 0 {
        let t = doc_text(es);
        assert(t.last() == '\n');
    }
}

/// A document's text around its entry `k`.
proof fn lemma_doc_split(es: Seq<EntryView>, k: int)
    requires
        0 <= k < es.len(),
    ensures
        doc_text(es) == doc_text(es.take(k)) + entry_text(es[k]) + doc_text(
            es.subrange(k + 1, es.len() as int),
        ),
        doc_text(es.take(k + 1)) == doc_text(es.take(k)) + entry_text(es[k]),
{
    let e = es[k];
    let before = es.take(k);
    let after = es.subrange(k + 1, es.len() as int);
    assert(es =~= before + seq![e] + after);
    lemma_doc_text_concat(before + seq![e], after);
    lemma_doc_text_concat(before, seq![e]);
    assert(seq![e].drop_last() =~= Seq::<EntryView>::empty());
    assert(seq![e].last() == e);
    assert(doc_text(Seq::<EntryView>::empty()) =~= Seq::<char>::empty());
    assert(doc_text(seq![e]) == doc_text(seq![e].drop_last()) + entry_text(seq![e].last()));
    assert(doc_text(seq![e]) =~= entry_text(e));
    assert(es.take(k + 1) =~= before + seq![e]);
}

/// The lines of three pieces that each end a line.
proof fn lemma_lines_split3(x: Seq<char>, y: Seq<char>, z: Seq<char>, yl: Seq<Seq<char>>)
    requires
        split_state(x).1.len() == 0,
        split_state(y) == (yl, Seq::<char>::empty()),
        split_state(z).1.len() == 0,
    ensures
        lines_of(x + y + z) == lines_of(x) + yl + lines_of(z),
        lines_of(x + y) == lines_of(x) + yl,
{
    lemma_split_concat(x, y);
    lemma_split_concat(x + y, z);
}

#[verifier::spinoff_prover]
proof fn lemma_parse_written_from(es: Seq<EntryView>, k: int)
    requires
        forall|x: int| 0 <= x < es.len() ==> entry_ok(#[trigger] es[x]),
        0 <= k <= es.len(),
    ensures
        parse_from(
            lines_of(doc_text(es)),
            lines_of(doc_text(es.take(k))).len() as int,
            es.take(k),
        ) == Ok::<Seq<EntryView>, SrtErrorView>(es),
    decreases es.len() - k,
{
    let n = es.len() as int;
    let ls = lines_of(doc_text(es));
    if k == n {
        assert(es.take(k) =~= es);
    } else {
        let e = es[k];
        assert(entry_ok(e));
        let tl = choose|tl: Seq<Seq<char>>|
            #[trigger] join_lines(tl) == e.text && forall|j: int|
                0 <= j < tl.len() ==> text_line_ok(#[trigger] tl[j]);
        let before = es.take(k);
        let after = es.subrange(k + 1, n);
        lemma_doc_split(es, k);
        lemma_entry_lines(e, tl);
        lemma_doc_text_ends_line(before);
        lemma_doc_text_ends_line(after);
        let a = lines_of(doc_text(before));
        let g = entry_lines(e, tl);
        lemma_lines_split3(doc_text(before), entry_text(e), doc_text(after), g);
        assert(ls.subrange(a.len() as int, (a.len() + g.len()) as int) =~= g);
        lemma_parse_entry(ls, a.len() as int, e, tl, before);
        assert(before.push(e) =~= es.take(k + 1));
        lemma_parse_written_from(es, k + 1);
    }
}

proof fn lemma_parse_ok(ls: Seq<Seq<char>>, i: int, acc: Seq<EntryView>)
    requires
        forall|k: int| 0 <= k < ls.len() ==> plain(#[trigger] ls[k]),
        forall|k: int| 0 <= k < acc.len() ==> entry_ok(#[trigger] acc[k]),
        parse_from(ls, i, acc) is Ok,
    ensures
        forall|k: int|
            0 <= k < parse_from(ls, i, acc)->Ok_0.len() ==> entry_ok(
                #[trigger] parse_from(ls, i, acc)->Ok_0[k],
            ),
    decreases ls.len() + 1 - i,
{
    if i < 0 || i >= ls.len() {
    } else if is_blank(ls[i]) {
        lemma_parse_ok(ls, i + 1, acc);
    } else {
        match parse_u32_spec(trim(ls[i])) {
            None => {},
            Some(index) => {
                if i + 1 < ls.len() {
                    match time_line_spec(ls[i + 1]) {
                        Err(_) => {},
                        Ok((b, e)) => {
                            lemma_block_end_bounds(ls, i + 2);
                            lemma_block_end_nonblank(ls, i + 2);
                            lemma_time_line_bounded(ls[i + 1]);
                            let j = block_end(ls, i + 2);
                            let tl = ls.subrange(i + 2, j);
                            let ent = EntryView { index, beg: b, end: e, text: join_lines(tl) };
                            assert forall|x: int| 0 <= x < tl.len() implies text_line_ok(
                                #[trigger] tl[x],
                            ) by {
                                assert(tl[x] == ls[i + 2 + x]);
                            }
                            assert(entry_ok(ent));
                            let acc2 = acc.push(ent);
                            assert forall|k: int| 0 <= k < acc2.len() implies entry_ok(
                                #[trigger] acc2[k],
                            ) by {
                                if k < acc.len() {
                                    assert(acc2[k] == acc[k]);
                                }
                            }
                            lemma_parse_ok(ls, j + 1, acc2);
                        },
                    }
                }
            },
        }
    }
}

/// Writing a parsed document and parsing the result gives the same
/// entries again: `parse(serialize(parse(x))) == parse(x)`, for every text
/// `x` that parses and in which each carriage return ends a line (as in
/// `"\r\n"`).
pub proof fn lemma_reparse_written(s: Seq<char>)
    requires
        parse_doc(s) is Ok,
        cr_ends_lines(s),
    ensures
        parse_doc(doc_text(parse_doc(s)->Ok_0)) == parse_doc(s),
{
    lemma_lines_plain(s);
    lemma_parse_ok(lines_of(s), 0, Seq::empty());
    let es = parse_doc(s)->Ok_0;
    lemma_parse_written_from(es, 0);
    assert(es.take(0) =~= Seq::<EntryView>::empty());
    assert(doc_text(Seq::<EntryView>::empty()) =~= Seq::<char>::empty());
    assert(lines_of(Seq::<char>::empty()).len() == 0);
}

} // verus!
