//! Greedy word wrapping over any kind of cell (plain characters, or characters with a style).

use vstd::prelude::*;

verus! {

/// Place one `word` after the rows so far and the row being built (`cur`): a word wider than
/// `width` is cut into `width`-cell rows (closing `cur` first); otherwise it joins `cur` after the
/// separator `sep` when that still fits, else `cur` is closed and the word starts a new row.
/// While no row is closed yet, `cur` is row 0 and the `indent` it will carry counts toward the fit.
pub open spec fn wrap_word<T>(rows: Seq<Seq<T>>, cur: Seq<T>, word: Seq<T>, sep: T, width: nat, indent: nat) -> (
    Seq<Seq<T>>,
    Seq<T>,
)
    decreases word.len(),
{
    if width > 0 && word.len() > width {
        let rows1 = if cur.len() > 0 { rows.push(cur) } else { rows };
        wrap_word(
            rows1.push(word.subrange(0, width as int)),
            seq![],
            word.subrange(width as int, word.len() as int),
            sep,
            width,
            indent,
        )
    } else if cur.len() > 0 && (if rows.len() == 0 { indent } else { 0 }) + cur.len() + 1 + word.len() > width {
        (rows.push(cur), word)
    } else if cur.len() > 0 {
        (rows, cur.push(sep) + word)
    } else {
        (rows, word)
    }
}

/// The rows closed and the row in progress after placing `words` (each with the separator that
/// joins it to the word before) in order.
pub open spec fn wrap_words<T>(words: Seq<(T, Seq<T>)>, width: nat, indent: nat) -> (Seq<Seq<T>>, Seq<T>)
    decreases words.len(),
{
    if words.len() == 0 {
        (seq![], seq![])
    } else {
        let (rows, cur) = wrap_words(words.drop_last(), width, indent);
        wrap_word(rows, cur, words.last().1, words.last().0, width, indent)
    }
}

/// The rows of `words` wrapped to `width` with `indent` put back in front of row 0; when
/// `narrow`, the indent also counts toward row 0's fit.
pub open spec fn wrap_rows<T>(indent: Seq<T>, words: Seq<(T, Seq<T>)>, width: nat, narrow: bool) -> Seq<Seq<T>> {
    let (rows, cur) = wrap_words(words, width, if narrow { indent.len() } else { 0 });
    let all = rows.push(cur);
    if indent.len() > 0 {
        all.update(0, indent + all[0])
    } else {
        all
    }
}

/// Each cell of `s` mapped by `f`.
pub open spec fn map_row<T, U>(s: Seq<T>, f: spec_fn(T) -> U) -> Seq<U> {
    s.map_values(f)
}

/// Each row of `rows` mapped cell by cell by `f`.
pub open spec fn map_rows<T, U>(rows: Seq<Seq<T>>, f: spec_fn(T) -> U) -> Seq<Seq<U>> {
    rows.map_values(|r: Seq<T>| map_row(r, f))
}

/// Each word and its separator mapped by `f`.
pub open spec fn map_words<T, U>(words: Seq<(T, Seq<T>)>, f: spec_fn(T) -> U) -> Seq<(U, Seq<U>)> {
    words.map_values(|p: (T, Seq<T>)| (f(p.0), map_row(p.1, f)))
}

proof fn lemma_wrap_word_map<T, U>(
    rows: Seq<Seq<T>>,
    cur: Seq<T>,
    word: Seq<T>,
    sep: T,
    width: nat,
    indent: nat,
    f: spec_fn(T) -> U,
)
    ensures
        wrap_word(map_rows(rows, f), map_row(cur, f), map_row(word, f), f(sep), width, indent) == (
        map_rows(wrap_word(rows, cur, word, sep, width, indent).0, f),
        map_row(wrap_word(rows, cur, word, sep, width, indent).1, f),
    ),
    decreases word.len(),
{
    let mr = map_rows(rows, f);
    let mc = map_row(cur, f);
    let mw = map_row(word, f);
    if width > 0 && word.len() > width {
        let rows1 = if cur.len() > 0 { rows.push(cur) } else { rows };
        let mrows1 = if mc.len() > 0 { mr.push(mc) } else { mr };
        assert(mrows1 =~= map_rows(rows1, f));
        let head = word.subrange(0, width as int);
        let tail = word.subrange(width as int, word.len() as int);
        assert(mw.subrange(0, width as int) =~= map_row(head, f));
        assert(mw.subrange(width as int, mw.len() as int) =~= map_row(tail, f));
        assert(mrows1.push(mw.subrange(0, width as int)) =~= map_rows(rows1.push(head), f));
        assert(map_row(Seq::<T>::empty(), f) =~= Seq::<U>::empty());
        lemma_wrap_word_map(rows1.push(head), seq![], tail, sep, width, indent, f);
    } else if cur.len() > 0 && (if rows.len() == 0 { indent } else { 0 }) + cur.len() + 1 + word.len() > width {
        assert(mr.push(mc) =~= map_rows(rows.push(cur), f));
    } else if cur.len() > 0 {
        assert(mc.push(f(sep)) + mw =~= map_row(cur.push(sep) + word, f));
    } else {
    }
}

/// Wrapping commutes with mapping every cell: the rows of mapped words are the mapped rows.
pub proof fn lemma_wrap_rows_map<T, U>(indent: Seq<T>, words: Seq<(T, Seq<T>)>, width: nat, narrow: bool, f: spec_fn(T) -> U)
    ensures
        wrap_rows(map_row(indent, f), map_words(words, f), width, narrow) == map_rows(
            wrap_rows(indent, words, width, narrow),
            f,
        ),
{
    let ind = if narrow { indent.len() } else { 0 };
    lemma_wrap_words_map(words, width, ind, f);
    let (rows, cur) = wrap_words(words, width, ind);
    let all = rows.push(cur);
    let mall = map_rows(rows, f).push(map_row(cur, f));
    assert(mall =~= map_rows(all, f));
    if indent.len() > 0 {
        assert(mall[0] == map_row(all[0], f));
        assert(map_row(indent, f) + mall[0] =~= map_row(indent + all[0], f));
        assert(mall.update(0, map_row(indent, f) + mall[0]) =~= map_rows(all.update(0, indent + all[0]), f));
    }
}

proof fn lemma_wrap_words_map<T, U>(words: Seq<(T, Seq<T>)>, width: nat, indent: nat, f: spec_fn(T) -> U)
    ensures
        wrap_words(map_words(words, f), width, indent) == (
        map_rows(wrap_words(words, width, indent).0, f),
        map_row(wrap_words(words, width, indent).1, f),
    ),
    decreases words.len(),
{
    let mw = map_words(words, f);
    if words.len() == 0 {
        assert(map_rows(Seq::<Seq<T>>::empty(), f) =~= Seq::<Seq<U>>::empty());
        assert(map_row(Seq::<T>::empty(), f) =~= Seq::<U>::empty());
    } else {
        assert(mw.drop_last() =~= map_words(words.drop_last(), f));
        lemma_wrap_words_map(words.drop_last(), width, indent, f);
        let (rows, cur) = wrap_words(words.drop_last(), width, indent);
        lemma_wrap_word_map(rows, cur, words.last().1, words.last().0, width, indent, f);
    }
}

/// The cells of `words` run together, each word after its separator.
pub open spec fn words_cells<T>(words: Seq<(T, Seq<T>)>) -> Seq<T>
    decreases words.len(),
{
    if words.len() == 0 {
        seq![]
    } else {
        words_cells(words.drop_last()) + seq![words.last().0] + words.last().1
    }
}

proof fn lemma_filter_drops_single<T>(x: T, keep: spec_fn(T) -> bool)
    requires
        !keep(x),
    ensures
        seq![x].filter(keep) == Seq::<T>::empty(),
{
    reveal_with_fuel(Seq::filter, 2);
    assert(seq![x].drop_last() =~= Seq::<T>::empty());
    assert(seq![x].filter(keep) =~= Seq::<T>::empty());
}

proof fn lemma_wrap_word_keeps<T>(
    rows: Seq<Seq<T>>,
    cur: Seq<T>,
    word: Seq<T>,
    sep: T,
    width: nat,
    indent: nat,
    keep: spec_fn(T) -> bool,
)
    requires
        !keep(sep),
    ensures
        ({
            let (r, c) = wrap_word(rows, cur, word, sep, width, indent);
            (r.flatten() + c).filter(keep) == (rows.flatten() + cur).filter(keep) + word.filter(keep)
        }),
    decreases word.len(),
{
    broadcast use vstd::seq_lib::group_filter_ensures, Seq::filter_distributes_over_add, Seq::lemma_flatten_push;

    if width > 0 && word.len() > width {
        let rows1 = if cur.len() > 0 { rows.push(cur) } else { rows };
        assert(rows1.flatten() == rows.flatten() + cur) by {
            if cur.len() == 0 {
                assert(rows.flatten() + cur =~= rows.flatten());
            }
        }
        let head = word.subrange(0, width as int);
        let tail = word.subrange(width as int, word.len() as int);
        lemma_wrap_word_keeps(rows1.push(head), seq![], tail, sep, width, indent, keep);
        assert(rows1.push(head).flatten() + Seq::<T>::empty() =~= rows1.flatten() + head);
        assert(word =~= head + tail);
        assert((rows1.flatten() + head).filter(keep) == rows1.flatten().filter(keep) + head.filter(keep));
        assert(word.filter(keep) == head.filter(keep) + tail.filter(keep));
        assert((rows.flatten() + cur).filter(keep) + head.filter(keep) + tail.filter(keep) =~= (rows.flatten()
            + cur).filter(keep) + word.filter(keep));
    } else if cur.len() > 0 && (if rows.len() == 0 { indent } else { 0 }) + cur.len() + 1 + word.len() > width {
        assert(rows.push(cur).flatten() == rows.flatten() + cur);
    } else if cur.len() > 0 {
        let joined = cur.push(sep) + word;
        assert(rows.flatten() + joined =~= (rows.flatten() + cur) + seq![sep] + word);
        lemma_filter_drops_single(sep, keep);
        assert(((rows.flatten() + cur) + seq![sep]).filter(keep) == (rows.flatten() + cur).filter(keep) + seq![
            sep,
        ].filter(keep));
        assert((rows.flatten() + cur).filter(keep) + Seq::<T>::empty() =~= (rows.flatten() + cur).filter(keep));
    } else {
        assert(rows.flatten() + cur =~= rows.flatten());
    }
}

proof fn lemma_wrap_words_keeps<T>(words: Seq<(T, Seq<T>)>, width: nat, indent: nat, keep: spec_fn(T) -> bool)
    requires
        forall|i: int| 0 <= i < words.len() ==> !keep(#[trigger] words[i].0),
    ensures
        (wrap_words(words, width, indent).0.flatten() + wrap_words(words, width, indent).1).filter(keep)
            == words_cells(words).filter(keep),
    decreases words.len(),
{
    broadcast use vstd::seq_lib::group_filter_ensures, Seq::filter_distributes_over_add;

    if words.len() == 0 {
        assert(Seq::<Seq<T>>::empty().flatten() + Seq::<T>::empty() =~= Seq::<T>::empty());
    } else {
        let dl = words.drop_last();
        assert forall|i: int| 0 <= i < dl.len() implies !keep(#[trigger] dl[i].0) by {
            assert(dl[i] == words[i]);
        }
        lemma_wrap_words_keeps(dl, width, indent, keep);
        let (rows, cur) = wrap_words(dl, width, indent);
        let sep = words.last().0;
        assert(!keep(words[words.len() - 1].0));
        lemma_wrap_word_keeps(rows, cur, words.last().1, sep, width, indent, keep);
        lemma_filter_drops_single(sep, keep);
        let wc = words_cells(dl);
        assert((wc + seq![sep] + words.last().1).filter(keep) == (wc + seq![sep]).filter(keep) + words.last().1.filter(
            keep,
        ));
        assert((wc + seq![sep]).filter(keep) == wc.filter(keep) + seq![sep].filter(keep));
        assert(wc.filter(keep) + Seq::<T>::empty() =~= wc.filter(keep));
    }
}

/// Wrapping loses, repeats and reorders no kept cell: when no separator is kept, the kept cells
/// of the rows run together are those of the indent followed by the words (each after its
/// separator).
pub proof fn lemma_wrap_rows_keep_cells<T>(
    indent: Seq<T>,
    words: Seq<(T, Seq<T>)>,
    width: nat,
    narrow: bool,
    keep: spec_fn(T) -> bool,
)
    requires
        forall|i: int| 0 <= i < words.len() ==> !keep(#[trigger] words[i].0),
    ensures
        wrap_rows(indent, words, width, narrow).flatten().filter(keep) == (indent + words_cells(words)).filter(keep),
{
    broadcast use vstd::seq_lib::group_filter_ensures, Seq::filter_distributes_over_add, Seq::lemma_flatten_push;

    let ind = if narrow { indent.len() } else { 0 };
    lemma_wrap_words_keeps(words, width, ind, keep);
    let (rows, cur) = wrap_words(words, width, ind);
    let all = rows.push(cur);
    assert(all.flatten() == rows.flatten() + cur);
    if indent.len() > 0 {
        let u = all.update(0, indent + all[0]);
        assert(u.first() == indent + all.first());
        assert(u.drop_first() =~= all.drop_first());
        assert(all.flatten() == all.first() + all.drop_first().flatten());
        assert(u.flatten() == u.first() + u.drop_first().flatten());
        assert(u.flatten() =~= indent + all.flatten());
    } else {
        assert(indent + words_cells(words) =~= words_cells(words));
    }
}

/// Every row of `rows` is at most `width` cells.
pub open spec fn rows_fit<T>(rows: Seq<Seq<T>>, width: nat) -> bool {
    forall|i: int| 0 <= i < rows.len() ==> #[trigger] rows[i].len() <= width
}

/// Copy `s[from..to]`.
pub fn slice_copy<T: Copy>(s: &[T], from: usize, to: usize) -> (v: Vec<T>)
    requires
        from <= to <= s@.len(),
    ensures
        v@ == s@.subrange(from as int, to as int),
{
    let mut v: Vec<T> = Vec::new();
    let mut i = from;
    while i < to
        invariant
            from <= i <= to <= s@.len(),
            v@ == s@.subrange(from as int, i as int),
        decreases to - i,
    {
        v.push(s[i]);
        i = i + 1;
        assert(v@ =~= s@.subrange(from as int, i as int));
    }
    v
}

/// Append `s` to `out`.
pub fn append_copy<T: Copy>(out: &mut Vec<T>, s: &[T])
    ensures
        final(out)@ == old(out)@ + s@,
{
    let mut i: usize = 0;
    while i < s.len()
        invariant
            i <= s@.len(),
            out@ == old(out)@ + s@.subrange(0, i as int),
        decreases s@.len() - i,
    {
        out.push(s[i]);
        i = i + 1;
        assert(out@ =~= old(out)@ + s@.subrange(0, i as int));
    }
    assert(s@.subrange(0, s@.len() as int) =~= s@);
}

/// The words as plain values.
pub open spec fn words_view<T>(words: Seq<(T, Vec<T>)>) -> Seq<(T, Seq<T>)> {
    words.map_values(|w: (T, Vec<T>)| (w.0, w.1@))
}

/// The rows as plain values.
pub open spec fn rows_view<T>(rows: Seq<Vec<T>>) -> Seq<Seq<T>> {
    rows.map_values(|r: Vec<T>| r@)
}

/// Wrap `words` to `width` (see `wrap_rows`), `indent` going in front of row 0.
pub fn wrap_items<T: Copy>(indent: &Vec<T>, words: &Vec<(T, Vec<T>)>, width: usize, narrow: bool) -> (rows: Vec<Vec<T>>)
    requires
        width >= 1,
    ensures
        rows_view(rows@) == wrap_rows(indent@, words_view(words@), width as nat, narrow),
{
    let ghost ws = words_view(words@);
    let lead: usize = if narrow { indent.len() } else { 0 };
    let mut rows: Vec<Vec<T>> = Vec::new();
    let mut cur: Vec<T> = Vec::new();
    let mut k: usize = 0;
    proof {
        assert(ws.subrange(0, 0) =~= Seq::<(T, Seq<T>)>::empty());
        assert(rows_view(rows@) =~= Seq::<Seq<T>>::empty());
    }
    while k < words.len()
        invariant
            k <= words@.len(),
            width >= 1,
            ws == words_view(words@),
            (rows_view(rows@), cur@) == wrap_words(ws.subrange(0, k as int), width as nat, lead as nat),
        decreases words@.len() - k,
    {
        let sep = words[k].0;
        let word = &words[k].1;
        proof {
            assert(ws.subrange(0, k + 1).drop_last() =~= ws.subrange(0, k as int));
            assert(ws.subrange(0, k + 1).last() == (sep, word@));
            assert(word@.subrange(0, word@.len() as int) =~= word@);
        }
        let mut off: usize = 0;
        while word.len() - off > width
            invariant
                off <= word@.len(),
                width >= 1,
                wrap_words(ws.subrange(0, k + 1), width as nat, lead as nat) == wrap_word(
                    rows_view(rows@),
                    cur@,
                    word@.subrange(off as int, word@.len() as int),
                    sep,
                    width as nat,
                    lead as nat,
                ),
            decreases word@.len() - off,
        {
            let ghost w = word@.subrange(off as int, word@.len() as int);
            let ghost r0 = rows_view(rows@);
            let ghost c0 = cur@;
            if cur.len() > 0 {
                rows.push(cur);
                cur = Vec::new();
            }
            let cut = slice_copy(word.as_slice(), off, off + width);
            rows.push(cut);
            proof {
                let r1 = if c0.len() > 0 { r0.push(c0) } else { r0 };
                assert(rows_view(rows@) =~= r1.push(cut@));
                assert(w.subrange(0, width as int) =~= cut@);
                assert(w.subrange(width as int, w.len() as int) =~= word@.subrange(
                    off + width,
                    word@.len() as int,
                ));
                assert(cur@ =~= Seq::<T>::empty());
            }
            off = off + width;
        }
        let rest = slice_copy(word.as_slice(), off, word.len());
        let ghost r0 = rows_view(rows@);
        let ghost c0 = cur@;
        let extra: usize = if rows.len() == 0 { lead } else { 0 };
        if cur.len() > 0 && (cur.len() >= width || extra >= width - cur.len() || rest.len() >= width
            - cur.len() - extra) {
            rows.push(cur);
            cur = rest;
            proof {
                assert(rows_view(rows@) =~= r0.push(c0));
            }
        } else if cur.len() > 0 {
            cur.push(sep);
            append_copy(&mut cur, rest.as_slice());
            proof {
                assert(cur@ =~= c0.push(sep) + rest@);
            }
        } else {
            cur = rest;
        }
        k = k + 1;
    }
    proof {
        assert(ws.subrange(0, words@.len() as int) =~= ws);
    }
    let ghost r0 = rows_view(rows@);
    rows.push(cur);
    let ghost all = rows_view(rows@);
    proof {
        assert(all =~= r0.push(cur@));
    }
    if indent.len() > 0 {
        let first = rows.remove(0);
        let mut lead_row = slice_copy(indent.as_slice(), 0, indent.len());
        append_copy(&mut lead_row, first.as_slice());
        rows.insert(0, lead_row);
        proof {
            assert(indent@.subrange(0, indent@.len() as int) =~= indent@);
            assert(rows_view(rows@) =~= all.update(0, indent@ + all[0]));
        }
    }
    rows
}

proof fn lemma_wrap_word_fits<T>(rows: Seq<Seq<T>>, cur: Seq<T>, word: Seq<T>, sep: T, width: nat, indent: nat)
    requires
        width >= 1,
        rows_fit(rows, width),
        cur.len() <= width,
    ensures
        rows_fit(wrap_word(rows, cur, word, sep, width, indent).0, width),
        wrap_word(rows, cur, word, sep, width, indent).1.len() <= width,
    decreases word.len(),
{
    if word.len() > width {
        let rows1 = if cur.len() > 0 { rows.push(cur) } else { rows };
        let rows2 = rows1.push(word.subrange(0, width as int));
        assert(rows_fit(rows2, width)) by {
            assert forall|i: int| 0 <= i < rows2.len() implies #[trigger] rows2[i].len() <= width by {
                if i < rows.len() {
                    assert(rows2[i] == rows[i]);
                }
            }
        }
        lemma_wrap_word_fits(rows2, seq![], word.subrange(width as int, word.len() as int), sep, width, indent);
    } else if cur.len() > 0 && (if rows.len() == 0 { indent } else { 0 }) + cur.len() + 1 + word.len() > width {
        let rows2 = rows.push(cur);
        assert(rows_fit(rows2, width)) by {
            assert forall|i: int| 0 <= i < rows2.len() implies #[trigger] rows2[i].len() <= width by {
                if i < rows.len() {
                    assert(rows2[i] == rows[i]);
                }
            }
        }
    }
}

proof fn lemma_wrap_words_fits<T>(words: Seq<(T, Seq<T>)>, width: nat, indent: nat)
    requires
        width >= 1,
    ensures
        rows_fit(wrap_words(words, width, indent).0, width),
        wrap_words(words, width, indent).1.len() <= width,
    decreases words.len(),
{
    if words.len() > 0 {
        lemma_wrap_words_fits(words.drop_last(), width, indent);
        let (rows, cur) = wrap_words(words.drop_last(), width, indent);
        lemma_wrap_word_fits(rows, cur, words.last().1, words.last().0, width, indent);
    }
}

/// Wrapping always yields at least one row; every row fits in `width` cells, except that row 0
/// carries the indent on top of that.
pub proof fn lemma_wrap_rows_fit<T>(indent: Seq<T>, words: Seq<(T, Seq<T>)>, width: nat, narrow: bool)
    requires
        width >= 1,
    ensures
        wrap_rows(indent, words, width, narrow).len() >= 1,
        forall|i: int| 1 <= i < wrap_rows(indent, words, width, narrow).len() ==> #[trigger] wrap_rows(indent, words, width, narrow)[i].len() <= width,
        wrap_rows(indent, words, width, narrow)[0].len() <= indent.len() + width,
{
    let ind: nat = if narrow { indent.len() } else { 0 };
    lemma_wrap_words_fits(words, width, ind);
    let (rows, cur) = wrap_words(words, width, ind);
    let all = rows.push(cur);
    assert(rows_fit(all, width)) by {
        assert forall|i: int| 0 <= i < all.len() implies #[trigger] all[i].len() <= width by {
            if i < rows.len() {
                assert(all[i] == rows[i]);
            }
        }
    }
    assert(all[0].len() <= width);
}

} // verus!
