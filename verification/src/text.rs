//! Whitespace-separated tables: a text becomes rows of words.
//!
//! A text is cut into lines at `'\n'`, each line into words at Unicode
//! whitespace, and lines without a word are left out. This is what
//! `str::lines` followed by `str::split_whitespace` yields, with the lines
//! whose `trim` is empty dropped: a `'\r'` before a `'\n'` is whitespace and
//! never reaches a word.
use vstd::prelude::*;

verus! {

/// Unicode `White_Space`: the chars for which `char::is_whitespace` holds.
pub open spec fn is_white(c: char) -> bool {
    let u = c as u32;
    ||| 0x09 <= u <= 0x0D
    ||| u == 0x20
    ||| u == 0x85
    ||| u == 0xA0
    ||| u == 0x1680
    ||| 0x2000 <= u <= 0x200A
    ||| u == 0x2028
    ||| u == 0x2029
    ||| u == 0x202F
    ||| u == 0x205F
    ||| u == 0x3000
}

/// The separator of lines (`newline`) or of the words in a line.
pub open spec fn is_sep(newline: bool, c: char) -> bool {
    if newline {
        c == '\n'
    } else {
        is_white(c)
    }
}

/// The pieces of `s` between its separators, empty pieces included: one piece
/// more than `s` has separators.
pub open spec fn pieces(s: Seq<char>, newline: bool) -> Seq<Seq<char>>
    decreases s.len(),
{
    if s.len() == 0 {
        seq![Seq::empty()]
    } else {
        let before = pieces(s.drop_last(), newline);
        if is_sep(newline, s.last()) {
            before.push(Seq::empty())
        } else {
            before.update(before.len() - 1, before.last().push(s.last()))
        }
    }
}

/// Holds of a word that is not empty.
pub open spec fn nonempty_word() -> spec_fn(Seq<char>) -> bool {
    |w: Seq<char>| w.len() > 0
}

/// Holds of a row that has a word.
pub open spec fn nonempty_row() -> spec_fn(Seq<Seq<char>>) -> bool {
    |r: Seq<Seq<char>>| r.len() > 0
}

/// The words of a line: its maximal runs of chars that are not whitespace.
pub open spec fn words(line: Seq<char>) -> Seq<Seq<char>> {
    pieces(line, false).filter(nonempty_word())
}

/// The words of each line, as a function.
pub open spec fn words_of_line() -> spec_fn(Seq<char>) -> Seq<Seq<char>> {
    |line: Seq<char>| words(line)
}

/// The rows of a text: the words of each of its lines, the lines without a
/// word left out.
pub open spec fn table_rows(text: Seq<char>) -> Seq<Seq<Seq<char>>> {
    pieces(text, true).map_values(words_of_line()).filter(nonempty_row())
}

proof fn lemma_pieces_nonempty(s: Seq<char>, newline: bool)
    ensures
        pieces(s, newline).len() >= 1,
    decreases s.len(),
{
    if s.len() > 0 {
        lemma_pieces_nonempty(s.drop_last(), newline);
    }
}

/// How the pieces change when one char is appended.
proof fn lemma_pieces_push(s: Seq<char>, c: char, newline: bool)
    ensures
        pieces(s, newline).len() >= 1,
        is_sep(newline, c) ==> pieces(s.push(c), newline) == pieces(s, newline).push(
            Seq::empty(),
        ),
        !is_sep(newline, c) ==> pieces(s.push(c), newline).drop_last() == pieces(
            s,
            newline,
        ).drop_last(),
        !is_sep(newline, c) ==> pieces(s.push(c), newline).last() == pieces(
            s,
            newline,
        ).last().push(c),
        pieces(s.push(c), newline).len() >= 1,
{
    lemma_pieces_nonempty(s, newline);
    assert(s.push(c).drop_last() =~= s);
    let p = pieces(s, newline);
    if !is_sep(newline, c) {
        let q = pieces(s.push(c), newline);
        assert(q.drop_last() =~= p.drop_last());
    }
}

/// Filtering a sequence is filtering its front and then its last element.
proof fn lemma_filter_split_last<A>(s: Seq<A>, pred: spec_fn(A) -> bool)
    requires
        s.len() >= 1,
    ensures
        s.filter(pred) == if pred(s.last()) {
            s.drop_last().filter(pred).push(s.last())
        } else {
            s.drop_last().filter(pred)
        },
{
    assert(s.drop_last().push(s.last()) =~= s);
    s.drop_last().lemma_filter_push(s.last(), pred);
}

/// `s` followed by `x` when `x` is not empty.
pub open spec fn push_if_nonempty<A>(s: Seq<Seq<A>>, x: Seq<A>) -> Seq<Seq<A>> {
    if x.len() > 0 {
        s.push(x)
    } else {
        s
    }
}

/// The words of a line, from the complete words before its last piece and that
/// last piece.
proof fn lemma_words_from_parts(line: Seq<char>)
    ensures
        pieces(line, false).len() >= 1,
        words(line) == push_if_nonempty(
            pieces(line, false).drop_last().filter(nonempty_word()),
            pieces(line, false).last(),
        ),
{
    lemma_pieces_nonempty(line, false);
    lemma_filter_split_last(pieces(line, false), nonempty_word());
}

/// The rows of a text, from the rows of its complete lines and its last line.
proof fn lemma_rows_from_parts(text: Seq<char>)
    ensures
        pieces(text, true).len() >= 1,
        table_rows(text) == push_if_nonempty(
            pieces(text, true).drop_last().map_values(words_of_line()).filter(nonempty_row()),
            words(pieces(text, true).last()),
        ),
{
    lemma_pieces_nonempty(text, true);
    let l = pieces(text, true);
    let m = l.map_values(words_of_line());
    assert(m.drop_last() =~= l.drop_last().map_values(words_of_line()));
    lemma_filter_split_last(m, nonempty_row());
}

/// Among ASCII chars, exactly tab, line feed, vertical tab, form feed,
/// carriage return and space are whitespace; no-break space and ideographic
/// space are whitespace, zero-width space and the byte-order mark are not.
pub proof fn lemma_whitespace_chars(c: char)
    ensures
        (c as u32) < 0x80 ==> (is_white(c) <==> (c == '\t' || c == '\n' || c == '\x0B' || c
            == '\x0C' || c == '\r' || c == ' ')),
        is_white('\u{A0}'),
        is_white('\u{3000}'),
        !is_white('\u{200B}'),
        !is_white('\u{FEFF}'),
{
}

/// A piece of text without a separator is one piece.
proof fn lemma_pieces_without_sep(s: Seq<char>, newline: bool)
    requires
        forall|i: int| 0 <= i < s.len() ==> !is_sep(newline, #[trigger] s[i]),
    ensures
        pieces(s, newline) == seq![s],
    decreases s.len(),
{
    if s.len() == 0 {
        assert(s =~= Seq::<char>::empty());
    } else {
        assert forall|i: int| 0 <= i < s.drop_last().len() implies !is_sep(
            newline,
            #[trigger] s.drop_last()[i],
        ) by {
            assert(s.drop_last()[i] == s[i]);
        }
        lemma_pieces_without_sep(s.drop_last(), newline);
        assert(!is_sep(newline, s[s.len() - 1]));
        assert(s.drop_last().push(s.last()) =~= s);
        assert(seq![s.drop_last()].update(0, s.drop_last().push(s.last())) =~= seq![s]);
    }
}

/// A text that is not empty and has no whitespace char is one row of one
/// word, itself: words are split only at whitespace.
pub proof fn lemma_text_without_whitespace(text: Seq<char>)
    requires
        text.len() > 0,
        forall|i: int| 0 <= i < text.len() ==> !is_white(#[trigger] text[i]),
    ensures
        words(text) == seq![text],
        table_rows(text) == seq![seq![text]],
{
    reveal(Seq::filter);
    assert forall|i: int| 0 <= i < text.len() implies !is_sep(true, #[trigger] text[i]) by {
        assert(!is_white(text[i]));
        assert(text[i] != '\n');
    }
    lemma_pieces_without_sep(text, false);
    lemma_pieces_without_sep(text, true);
    let p = seq![text];
    assert(p.drop_last() =~= Seq::<Seq<char>>::empty());
    assert(words(text) =~= seq![text]);
    let m = p.map_values(words_of_line());
    assert(m =~= seq![seq![text]]);
    assert(m.drop_last() =~= Seq::<Seq<Seq<char>>>::empty());
}

/// Cutting at a separator: the pieces of `a`, a separator, then `b` are the
/// pieces of `a` followed by the pieces of `b`.
proof fn lemma_pieces_concat(a: Seq<char>, c: char, b: Seq<char>, newline: bool)
    requires
        is_sep(newline, c),
    ensures
        pieces(a.push(c) + b, newline) == pieces(a, newline) + pieces(b, newline),
    decreases b.len(),
{
    lemma_pieces_nonempty(a, newline);
    lemma_pieces_nonempty(b, newline);
    if b.len() == 0 {
        assert(a.push(c) + b =~= a.push(c));
        assert(a.push(c).drop_last() =~= a);
        assert(pieces(b, newline) =~= seq![Seq::<char>::empty()]);
        assert(pieces(a, newline).push(Seq::empty()) =~= pieces(a, newline) + seq![
            Seq::<char>::empty(),
        ]);
    } else {
        let b1 = b.drop_last();
        let x = b.last();
        lemma_pieces_concat(a, c, b1, newline);
        lemma_pieces_nonempty(b1, newline);
        assert((a.push(c) + b).drop_last() =~= a.push(c) + b1);
        assert((a.push(c) + b).last() == x);
        let pa = pieces(a, newline);
        let pb1 = pieces(b1, newline);
        if is_sep(newline, x) {
            assert((pa + pb1).push(Seq::empty()) =~= pa + pb1.push(Seq::empty()));
        } else {
            let whole = pa + pb1;
            assert(whole.last() == pb1.last());
            assert(whole.update(whole.len() - 1, whole.last().push(x)) =~= pa + pb1.update(
                pb1.len() - 1,
                pb1.last().push(x),
            ));
        }
    }
}

/// Words are cut at whitespace: the words of `a`, a whitespace char, then
/// `b` are the words of `a` followed by the words of `b`.
pub proof fn lemma_words_concat(a: Seq<char>, c: char, b: Seq<char>)
    requires
        is_white(c),
    ensures
        words(a.push(c) + b) == words(a) + words(b),
{
    lemma_pieces_concat(a, c, b, false);
    Seq::filter_distributes_over_add(pieces(a, false), pieces(b, false), nonempty_word());
}

/// Rows are cut at line feeds: the rows of `a`, a line feed, then `b` are the
/// rows of `a` followed by the rows of `b`.
pub proof fn lemma_rows_concat(a: Seq<char>, b: Seq<char>)
    ensures
        table_rows(a.push('\n') + b) == table_rows(a) + table_rows(b),
{
    lemma_pieces_concat(a, '\n', b, true);
    let pa = pieces(a, true);
    let pb = pieces(b, true);
    assert((pa + pb).map_values(words_of_line()) =~= pa.map_values(words_of_line())
        + pb.map_values(words_of_line()));
    Seq::filter_distributes_over_add(
        pa.map_values(words_of_line()),
        pb.map_values(words_of_line()),
        nonempty_row(),
    );
}

/// Whether `c` is whitespace, `char::is_whitespace`.
pub fn is_white_char(c: char) -> (b: bool)
    ensures
        b == is_white(c),
{
    let u = c as u32;
    (0x09 <= u && u <= 0x0D) || u == 0x20 || u == 0x85 || u == 0xA0 || u == 0x1680 || (0x2000
        <= u && u <= 0x200A) || u == 0x2028 || u == 0x2029 || u == 0x202F || u == 0x205F || u
        == 0x3000
}

/// The chars of a text, in order.
pub fn chars_of(s: &str) -> (v: Vec<char>)
    ensures
        v@ == s@,
{
    let mut v: Vec<char> = Vec::new();
    for c in it: s.chars()
        invariant
            v@ == it.seq().take(it.index() as int),
    {
        v.push(c);
    }
    v
}

/// The rows of words of `text`: for each line that has a word, its words in
/// order.
pub fn text_rows(text: &str) -> (rows: Vec<Vec<Vec<char>>>)
    ensures
        rows.deep_view() == table_rows(text@),
{
    let chars = chars_of(text);
    let n = chars.len();
    let mut rows: Vec<Vec<Vec<char>>> = Vec::new();
    let mut row: Vec<Vec<char>> = Vec::new();
    let mut cur: Vec<char> = Vec::new();
    let ghost mut line: Seq<char> = Seq::empty();
    proof {
        assert(chars@.take(0) =~= Seq::<char>::empty());
        assert(pieces(Seq::<char>::empty(), true) =~= seq![Seq::<char>::empty()]);
        assert(pieces(Seq::<char>::empty(), false) =~= seq![Seq::<char>::empty()]);
        assert(seq![Seq::<char>::empty()].drop_last() =~= Seq::<Seq<char>>::empty());
        reveal(Seq::filter);
        assert(rows.deep_view() =~= Seq::<Seq<Seq<char>>>::empty());
        assert(row.deep_view() =~= Seq::<Seq<char>>::empty());
    }
    let mut i: usize = 0;
    while i < n
        invariant
            n == chars@.len(),
            chars@ == text@,
            0 <= i <= n,
            pieces(chars@.take(i as int), true).len() >= 1,
            line == pieces(chars@.take(i as int), true).last(),
            rows.deep_view() == pieces(chars@.take(i as int), true).drop_last().map_values(
                words_of_line(),
            ).filter(nonempty_row()),
            pieces(line, false).len() >= 1,
            row.deep_view() == pieces(line, false).drop_last().filter(nonempty_word()),
            cur@ == pieces(line, false).last(),
        decreases n - i,
    {
        let c = chars[i];
        let ghost pre = chars@.take(i as int);
        proof {
            assert(chars@.take(i + 1) =~= pre.push(c));
            lemma_pieces_push(pre, c, true);
        }
        if c == '\n' {
            proof {
                lemma_words_from_parts(line);
                let l = pieces(pre, true);
                assert(l.drop_last().push(l.last()) =~= l);
                l.drop_last().lemma_push_map_commute(words_of_line(), l.last());
                l.drop_last().map_values(words_of_line()).lemma_filter_push(
                    words(line),
                    nonempty_row(),
                );
                pieces(line, false).drop_last().filter(nonempty_word()).lemma_filter_push(
                    cur@,
                    nonempty_word(),
                );
            }
            if cur.len() > 0 {
                let ghost before = row.deep_view();
                proof {
                    assert(cur.deep_view() =~= cur@);
                }
                row.push(cur);
                proof {
                    assert(row.deep_view() =~= before.push(pieces(line, false).last()));
                }
                cur = Vec::new();
            }
            if row.len() > 0 {
                let ghost before = rows.deep_view();
                rows.push(row);
                proof {
                    assert(rows.deep_view() =~= before.push(words(line)));
                }
                row = Vec::new();
            }
            proof {
                let l = pieces(pre, true);
                assert(pieces(pre.push(c), true).drop_last() =~= l);
                assert(l.map_values(words_of_line()) == l.drop_last().map_values(
                    words_of_line(),
                ).push(words(line)));
                line = Seq::empty();
                assert(pieces(line, false) =~= seq![Seq::<char>::empty()]);
                assert(seq![Seq::<char>::empty()].drop_last() =~= Seq::<Seq<char>>::empty());
                reveal(Seq::filter);
                assert(row.deep_view() =~= Seq::<Seq<char>>::empty());
                assert(cur@ =~= Seq::<char>::empty());
            }
        } else {
            proof {
                lemma_pieces_push(line, c, false);
            }
            if is_white_char(c) {
                proof {
                    let p = pieces(line, false);
                    assert(p.drop_last().push(p.last()) =~= p);
                    assert(pieces(line.push(c), false).drop_last() =~= p);
                    p.drop_last().lemma_filter_push(p.last(), nonempty_word());
                }
                if cur.len() > 0 {
                    let ghost before = row.deep_view();
                    proof {
                        assert(cur.deep_view() =~= cur@);
                    }
                    row.push(cur);
                    proof {
                        assert(row.deep_view() =~= before.push(pieces(line, false).last()));
                    }
                    cur = Vec::new();
                }
                proof {
                    assert(cur@ =~= Seq::<char>::empty());
                }
            } else {
                cur.push(c);
            }
            proof {
                let l = pieces(pre, true);
                let l2 = pieces(pre.push(c), true);
                assert(l2.drop_last() =~= l.drop_last());
                line = line.push(c);
            }
        }
        i = i + 1;
    }
    proof {
        assert(chars@.take(n as int) =~= chars@);
        lemma_words_from_parts(line);
        lemma_rows_from_parts(chars@);
        pieces(line, false).drop_last().filter(nonempty_word()).lemma_filter_push(
            cur@,
            nonempty_word(),
        );
    }
    if cur.len() > 0 {
        let ghost before = row.deep_view();
        proof {
            assert(cur.deep_view() =~= cur@);
        }
        row.push(cur);
        proof {
            assert(row.deep_view() =~= before.push(pieces(line, false).last()));
        }
    }
    if row.len() > 0 {
        let ghost before = rows.deep_view();
        rows.push(row);
        proof {
            assert(rows.deep_view() =~= before.push(words(line)));
        }
    }
    rows
}

} // verus!
