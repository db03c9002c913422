use vstd::prelude::*;
use crate::text::{is_white, char_is_white, str_chars, string_from_chars};

verus! {

/// Bytes of a character in UTF-8.
pub open spec fn utf8_len(c: char) -> nat {
    let v = c as u32;
    if v < 0x80 {
        1
    } else if v < 0x800 {
        2
    } else if v < 0x10000 {
        3
    } else {
        4
    }
}

/// Bytes of a text in UTF-8.
pub open spec fn byte_len(s: Seq<char>) -> nat
    decreases s.len(),
{
    if s.len() == 0 {
        0
    } else {
        byte_len(s.drop_last()) + utf8_len(s.last())
    }
}

/// The number of leading characters, from `k` on, that fit in `max` bytes.
pub open spec fn fit_from(w: Seq<char>, max: nat, k: int) -> int
    decreases w.len() - k,
{
    if 0 <= k < w.len() && byte_len(w.take(k + 1)) <= max {
        fit_from(w, max, k + 1)
    } else {
        k
    }
}

/// Pieces of a word, each the longest start that fits in `max` bytes, or
/// one character where none fits.
pub open spec fn pieces(w: Seq<char>, max: nat) -> Seq<Seq<char>>
    decreases w.len(),
{
    if w.len() == 0 {
        Seq::empty()
    } else {
        let f = fit_from(w, max, 0);
        let k = if 1 <= f <= w.len() { f } else { 1 };
        seq![w.take(k)] + pieces(w.skip(k), max)
    }
}

/// A word that fits stays whole; a longer one is cut into pieces.
pub open spec fn split_word(w: Seq<char>, max: nat) -> Seq<Seq<char>> {
    if byte_len(w) <= max {
        seq![w]
    } else {
        pieces(w, max)
    }
}

proof fn lemma_byte_len_push(s: Seq<char>, c: char)
    ensures
        byte_len(s.push(c)) == byte_len(s) + utf8_len(c),
{
    assert(s.push(c).drop_last() =~= s);
}

fn char_bytes(c: char) -> (n: usize)
    ensures
        n == utf8_len(c),
{
    let v = c as u32;
    if v < 0x80 {
        1
    } else if v < 0x800 {
        2
    } else if v < 0x10000 {
        3
    } else {
        4
    }
}

/// Whether `cs[i..j]` fits in `max` bytes of UTF-8.
fn fits(cs: &Vec<char>, i: usize, j: usize, max: usize) -> (r: bool)
    requires
        i <= j <= cs@.len(),
    ensures
        r == (byte_len(cs@.subrange(i as int, j as int)) <= max),
{
    let mut n: usize = 0;
    let mut k: usize = i;
    while k < j
        invariant
            i <= k <= j <= cs@.len(),
            n == byte_len(cs@.subrange(i as int, k as int)),
            n <= max,
        decreases j - k,
    {
        proof {
            lemma_byte_len_push(cs@.subrange(i as int, k as int), cs@[k as int]);
            assert(cs@.subrange(i as int, k + 1) =~= cs@.subrange(i as int, k as int).push(cs@[k as int]));
        }
        let b = char_bytes(cs[k]);
        if b > max - n {
            proof {
                lemma_byte_len_grows(cs@.subrange(i as int, j as int), k + 1 - i);
                assert(cs@.subrange(i as int, j as int).take(k + 1 - i) =~= cs@.subrange(i as int, k + 1));
            }
            return false;
        }
        n = n + b;
        k = k + 1;
    }
    true
}

/// A text is at least as long in bytes as its start.
proof fn lemma_byte_len_grows(s: Seq<char>, k: int)
    requires
        0 <= k <= s.len(),
    ensures
        byte_len(s.take(k)) <= byte_len(s),
    decreases s.len() - k,
{
    if k < s.len() {
        lemma_byte_len_grows(s, k + 1);
        lemma_byte_len_push(s.take(k), s[k]);
        assert(s.take(k + 1) =~= s.take(k).push(s[k]));
    } else {
        assert(s.take(k) =~= s);
    }
}

pub open spec fn chars_views(v: Seq<Vec<char>>) -> Seq<Seq<char>> {
    v.map_values(|x: Vec<char>| x@)
}

fn copy_range(cs: &Vec<char>, i: usize, j: usize) -> (r: Vec<char>)
    requires
        i <= j <= cs@.len(),
    ensures
        r@ == cs@.subrange(i as int, j as int),
{
    let mut out: Vec<char> = Vec::new();
    let mut k: usize = i;
    while k < j
        invariant
            i <= k <= j <= cs@.len(),
            out@ == cs@.subrange(i as int, k as int),
        decreases j - k,
    {
        out.push(cs[k]);
        assert(cs@.subrange(i as int, k + 1) =~= cs@.subrange(i as int, k as int).push(cs@[k as int]));
        k = k + 1;
    }
    out
}

/// The parts of the word `cs[i..j]`.
fn split_word_at(cs: &Vec<char>, i: usize, j: usize, max: usize) -> (r: Vec<Vec<char>>)
    requires
        i <= j <= cs@.len(),
    ensures
        chars_views(r@) == split_word(cs@.subrange(i as int, j as int), max as nat),
{
    let ghost w = cs@.subrange(i as int, j as int);
    let mut out: Vec<Vec<char>> = Vec::new();
    if fits(cs, i, j, max) {
        out.push(copy_range(cs, i, j));
        assert(chars_views(out@) =~= seq![w]);
        return out;
    }
    let mut start: usize = i;
    assert(chars_views(out@) + pieces(cs@.subrange(start as int, j as int), max as nat) =~= pieces(w, max as nat));
    while start < j
        invariant
            i <= start <= j <= cs@.len(),
            w == cs@.subrange(i as int, j as int),
            chars_views(out@) + pieces(cs@.subrange(start as int, j as int), max as nat) == pieces(w, max as nat),
        decreases j - start,
    {
        let ghost rest = cs@.subrange(start as int, j as int);
        let mut k: usize = start;
        while k < j && fits(cs, start, k + 1, max)
            invariant
                start <= k <= j <= cs@.len(),
                rest == cs@.subrange(start as int, j as int),
                fit_from(rest, max as nat, 0) == fit_from(rest, max as nat, k - start),
            decreases j - k,
        {
            assert(rest.take(k + 1 - start) =~= cs@.subrange(start as int, k + 1));
            k = k + 1;
        }
        proof {
            if k < j {
                assert(rest.take(k + 1 - start) =~= cs@.subrange(start as int, k + 1));
            }
            assert(fit_from(rest, max as nat, k - start) == k - start);
        }
        let end: usize = if k > start { k } else { start + 1 };
        let ghost before = out@;
        out.push(copy_range(cs, start, end));
        proof {
            let kk = end - start;
            assert(rest.take(kk) =~= cs@.subrange(start as int, end as int));
            assert(rest.skip(kk) =~= cs@.subrange(end as int, j as int));
            assert(pieces(rest, max as nat) == seq![rest.take(kk)] + pieces(rest.skip(kk), max as nat));
            assert(chars_views(out@) =~= chars_views(before).push(rest.take(kk)));
            assert(chars_views(out@) + pieces(cs@.subrange(end as int, j as int), max as nat)
                =~= chars_views(before) + (seq![rest.take(kk)] + pieces(rest.skip(kk), max as nat)));
        }
        start = end;
    }
    assert(pieces(cs@.subrange(j as int, j as int), max as nat) == Seq::<Seq<char>>::empty());
    assert(chars_views(out@) + Seq::<Seq<char>>::empty() =~= chars_views(out@));
    out
}


/// End of the run of non-white characters from `i`, before `j`.
pub open spec fn run_end(s: Seq<char>, i: int, j: int) -> int
    decreases j - i,
{
    if i < 0 || i >= j || i >= s.len() || is_white(s[i]) {
        i
    } else {
        run_end(s, i + 1, j)
    }
}

/// The words of `s[i..j]`: its maximal runs of non-white characters.
pub open spec fn words_in(s: Seq<char>, i: int, j: int) -> Seq<Seq<char>>
    decreases j - i,
{
    if i < 0 || i >= j || j > s.len() {
        Seq::empty()
    } else if is_white(s[i]) {
        words_in(s, i + 1, j)
    } else {
        let q = run_end(s, i, j);
        if q <= i || q > j {
            Seq::empty()
        } else {
            seq![s.subrange(i, q)] + words_in(s, q, j)
        }
    }
}

/// Position of the first line break at or after `i`, or the length.
pub open spec fn line_end(s: Seq<char>, i: int) -> int
    decreases s.len() - i,
{
    if i < 0 || i >= s.len() || s[i] == '\n' {
        i
    } else {
        line_end(s, i + 1)
    }
}

/// Bounds of the pieces of `s[i..]` between line breaks.
pub open spec fn chunks_from(s: Seq<char>, i: int) -> Seq<(int, int)>
    decreases s.len() - i,
{
    if i < 0 || i > s.len() {
        Seq::empty()
    } else {
        let j = line_end(s, i);
        if j >= s.len() || j < i {
            seq![(i, s.len() as int)]
        } else {
            seq![(i, j)] + chunks_from(s, j + 1)
        }
    }
}

/// A part joins the current line, after a space, where the line then fits;
/// else the current line is finished and the part starts the next.
pub open spec fn place(st: (Seq<Seq<char>>, Seq<char>), part: Seq<char>, max: nat) -> (Seq<Seq<char>>, Seq<char>) {
    let cand = if st.1.len() == 0 { part } else { st.1 + seq![' '] + part };
    if byte_len(cand) <= max {
        (st.0, cand)
    } else {
        (if st.1.len() == 0 { st.0 } else { st.0.push(st.1) }, part)
    }
}

pub open spec fn place_all(st: (Seq<Seq<char>>, Seq<char>), parts: Seq<Seq<char>>, max: nat) -> (Seq<Seq<char>>, Seq<char>)
    decreases parts.len(),
{
    if parts.len() == 0 {
        st
    } else {
        place(place_all(st, parts.drop_last(), max), parts.last(), max)
    }
}

pub open spec fn place_words(st: (Seq<Seq<char>>, Seq<char>), words: Seq<Seq<char>>, max: nat) -> (Seq<Seq<char>>, Seq<char>)
    decreases words.len(),
{
    if words.len() == 0 {
        st
    } else {
        place_all(place_words(st, words.drop_last(), max), split_word(words.last(), max), max)
    }
}

/// The lines with the current one added, if it has anything.
pub open spec fn close(st: (Seq<Seq<char>>, Seq<char>)) -> Seq<Seq<char>> {
    if st.1.len() > 0 { st.0.push(st.1) } else { st.0 }
}

/// The lines of the chunks `bs` of `s`, each chunk wrapped on its own.
pub open spec fn wrap_chunks(s: Seq<char>, bs: Seq<(int, int)>, max: nat) -> Seq<Seq<char>>
    decreases bs.len(),
{
    if bs.len() == 0 {
        Seq::empty()
    } else {
        let b = bs.last();
        close(place_words((wrap_chunks(s, bs.drop_last(), max), Seq::empty()), words_in(s, b.0, b.1), max))
    }
}

/// The last line kept, cut to fit three fewer bytes and marked with `...`.
pub open spec fn shorten(line: Seq<char>, max: nat) -> Seq<char> {
    let room: nat = if max >= 3 { (max - 3) as nat } else { 0 };
    let cut: nat = if room <= byte_len(line) { room } else { byte_len(line) };
    line.take(fit_from(line, cut, 0)) + seq!['.', '.', '.']
}

/// A label broken into lines of at most `max` bytes (a longer word is cut,
/// a line break always ends a line); at most `max_lines` of them, the last
/// then shortened.
pub open spec fn wrapped(label: Seq<char>, max: nat, max_lines: nat) -> Seq<Seq<char>> {
    let ls = wrap_chunks(label, chunks_from(label, 0), max);
    let lines = if ls.len() == 0 { seq![label] } else { ls };
    if lines.len() <= max_lines {
        lines
    } else if max_lines == 0 {
        Seq::empty()
    } else {
        let t = lines.take(max_lines as int);
        t.update(max_lines - 1, shorten(t[max_lines - 1], max))
    }
}


proof fn lemma_fit_all(line: Seq<char>, c: nat, k: int)
    requires
        0 <= k <= line.len(),
        byte_len(line) <= c,
    ensures
        fit_from(line, c, k) == line.len(),
    decreases line.len() - k,
{
    if k < line.len() {
        lemma_byte_len_grows(line, k + 1);
        lemma_fit_all(line, c, k + 1);
    }
}

fn place_exec(lines: &mut Vec<Vec<char>>, cur: &mut Vec<char>, part: &Vec<char>, max: usize)
    ensures
        (chars_views(final(lines)@), final(cur)@) == place((chars_views(old(lines)@), old(cur)@), part@, max as nat),
{
    let mut cand: Vec<char> = copy_range(cur, 0, cur.len());
    assert(cur@.subrange(0, cur@.len() as int) =~= cur@);
    if cur.len() > 0 {
        cand.push(' ');
    }
    let mut k: usize = 0;
    let ghost c0 = cand@;
    while k < part.len()
        invariant
            k <= part@.len(),
            cand@ == c0 + part@.take(k as int),
        decreases part.len() - k,
    {
        cand.push(part[k]);
        assert(part@.take(k + 1) =~= part@.take(k as int).push(part@[k as int]));
        k = k + 1;
    }
    proof {
        assert(part@.take(part@.len() as int) =~= part@);
        if cur@.len() == 0 {
            assert(cand@ =~= part@);
        } else {
            assert(cand@ =~= cur@ + seq![' '] + part@);
        }
        assert(cand@.subrange(0, cand@.len() as int) =~= cand@);
    }
    if fits(&cand, 0, cand.len(), max) {
        *cur = cand;
    } else {
        if cur.len() > 0 {
            let ghost before = lines@;
            let done = copy_range(cur, 0, cur.len());
            lines.push(done);
            assert(chars_views(lines@) =~= chars_views(before).push(cur@));
        }
        *cur = copy_range(part, 0, part.len());
        assert(part@.subrange(0, part@.len() as int) =~= part@);
    }
}

/// Places the words of `cs[a..b]` after the lines so far.
fn wrap_chunk(cs: &Vec<char>, a: usize, b: usize, lines: &mut Vec<Vec<char>>, max: usize)
    requires
        a <= b <= cs@.len(),
    ensures
        chars_views(final(lines)@) == close(place_words((chars_views(old(lines)@), Seq::empty()), words_in(cs@, a as int, b as int), max as nat)),
{
    let ghost s = cs@;
    let ghost l0 = chars_views(lines@);
    let ghost dw: Seq<Seq<char>> = Seq::empty();
    let mut cur: Vec<char> = Vec::new();
    let mut p: usize = a;
    assert(dw + words_in(s, a as int, b as int) =~= words_in(s, a as int, b as int));
    while p < b
        invariant
            s == cs@,
            a <= p <= b <= cs@.len(),
            words_in(s, a as int, b as int) == dw + words_in(s, p as int, b as int),
            (chars_views(lines@), cur@) == place_words((l0, Seq::empty()), dw, max as nat),
        decreases b - p,
    {
        if char_is_white(cs[p]) {
            p = p + 1;
        } else {
            let mut q: usize = p + 1;
            while q < b && !char_is_white(cs[q])
                invariant
                    s == cs@,
                    p < q <= b <= cs@.len(),
                    run_end(s, p as int, b as int) == run_end(s, q as int, b as int),
                decreases b - q,
            {
                q = q + 1;
            }
            let ghost word = s.subrange(p as int, q as int);
            let parts = split_word_at(cs, p, q, max);
            let ghost st0 = (chars_views(lines@), cur@);
            let mut k: usize = 0;
            assert(chars_views(parts@).take(0) =~= Seq::<Seq<char>>::empty());
            while k < parts.len()
                invariant
                    k <= parts@.len(),
                    (chars_views(lines@), cur@) == place_all(st0, chars_views(parts@).take(k as int), max as nat),
                decreases parts.len() - k,
            {
                place_exec(lines, &mut cur, &parts[k], max);
                assert(chars_views(parts@).take(k + 1).drop_last() =~= chars_views(parts@).take(k as int));
                k = k + 1;
            }
            proof {
                assert(chars_views(parts@).take(parts@.len() as int) =~= chars_views(parts@));
                assert(dw.push(word).drop_last() =~= dw);
                assert(words_in(s, p as int, b as int) == seq![word] + words_in(s, q as int, b as int));
                assert(dw + words_in(s, p as int, b as int) =~= dw.push(word) + words_in(s, q as int, b as int));
                dw = dw.push(word);
            }
            p = q;
        }
    }
    assert(dw + Seq::<Seq<char>>::empty() =~= dw);
    if cur.len() > 0 {
        let ghost before = lines@;
        lines.push(cur);
        assert(chars_views(lines@) =~= chars_views(before).push(cur@));
    }
}

/// Breaks a label into lines of at most `max` bytes, at most `max_lines` of
/// them (see [`wrapped`]).
pub fn wrap_label(label: &str, max: usize, max_lines: usize) -> (r: Vec<String>)
    ensures
        r@.map_values(|x: String| x@) == wrapped(label@, max as nat, max_lines as nat),
{
    let cs = str_chars(label);
    let ghost s = cs@;
    let mut lines: Vec<Vec<char>> = Vec::new();
    let ghost done: Seq<(int, int)> = Seq::empty();
    let mut i: usize = 0;
    let mut more = true;
    assert(done + chunks_from(s, 0) =~= chunks_from(s, 0));
    while more
        invariant
            s == cs@,
            i <= cs@.len(),
            more ==> chunks_from(s, 0) == done + chunks_from(s, i as int),
            !more ==> chunks_from(s, 0) == done,
            chars_views(lines@) == wrap_chunks(s, done, max as nat),
        decreases cs@.len() - i + if more { 2int } else { 0int },
    {
        let mut j: usize = i;
        while j < cs.len() && cs[j] != '\n'
            invariant
                s == cs@,
                i <= j <= cs@.len(),
                line_end(s, i as int) == line_end(s, j as int),
            decreases cs.len() - j,
        {
            j = j + 1;
        }
        wrap_chunk(&cs, i, j, &mut lines, max);
        proof {
            assert(done.push((i as int, j as int)).drop_last() =~= done);
        }
        if j >= cs.len() {
            proof {
                assert(chunks_from(s, i as int) == seq![(i as int, s.len() as int)]);
                assert(done + chunks_from(s, i as int) =~= done.push((i as int, j as int)));
                done = done.push((i as int, j as int));
            }
            more = false;
        } else {
            proof {
                assert(chunks_from(s, i as int) == seq![(i as int, j as int)] + chunks_from(s, j + 1));
                assert(done + chunks_from(s, i as int) =~= done.push((i as int, j as int)) + chunks_from(s, j + 1));
                done = done.push((i as int, j as int));
            }
            i = j + 1;
        }
    }
    if lines.len() == 0 {
        lines.push(copy_range(&cs, 0, cs.len()));
        assert(cs@.subrange(0, cs@.len() as int) =~= cs@);
        assert(chars_views(lines@) =~= seq![s]);
    }
    let ghost ls = chars_views(lines@);
    let mut out: Vec<String> = Vec::new();
    if lines.len() <= max_lines {
        let mut k: usize = 0;
        while k < lines.len()
            invariant
                k <= lines@.len(),
                ls == chars_views(lines@),
                out@.map_values(|x: String| x@) == ls.take(k as int),
            decreases lines.len() - k,
        {
            let line = string_from_chars(lines[k].as_slice());
            assert(line@ == ls[k as int]);
            let ghost before = out@;
            out.push(line);
            assert(out@.map_values(|x: String| x@) =~= before.map_values(|x: String| x@).push(line@));
            assert(ls.take(k + 1) =~= ls.take(k as int).push(ls[k as int]));
            k = k + 1;
        }
        assert(ls.take(ls.len() as int) =~= ls);
        return out;
    }
    if max_lines == 0 {
        assert(out@.map_values(|x: String| x@) =~= Seq::<Seq<char>>::empty());
        return out;
    }
    let mut k: usize = 0;
    while k + 1 < max_lines
        invariant
            k + 1 <= max_lines,
            max_lines < lines@.len(),
            ls == chars_views(lines@),
            out@.map_values(|x: String| x@) == ls.take(k as int),
        decreases max_lines - k,
    {
        let line = string_from_chars(lines[k].as_slice());
        assert(line@ == ls[k as int]);
        let ghost before = out@;
        out.push(line);
        assert(out@.map_values(|x: String| x@) =~= before.map_values(|x: String| x@).push(line@));
        assert(ls.take(k + 1) =~= ls.take(k as int).push(ls[k as int]));
        k = k + 1;
    }
    let last = &lines[k];
    let room: usize = if max >= 3 { max - 3 } else { 0 };
    let mut f: usize = 0;
    while f < last.len() && fits(last, 0, f + 1, room)
        invariant
            f <= last@.len(),
            fit_from(last@, room as nat, 0) == fit_from(last@, room as nat, f as int),
        decreases last.len() - f,
    {
        assert(last@.take(f + 1) =~= last@.subrange(0, f + 1));
        f = f + 1;
    }
    proof {
        if f < last@.len() {
            assert(last@.take(f + 1) =~= last@.subrange(0, f + 1));
        }
        let bl = byte_len(last@);
        if bl <= room {
            lemma_fit_all(last@, room as nat, 0);
            lemma_fit_all(last@, bl, 0);
        }
    }
    let mut cut = copy_range(last, 0, f);
    cut.push('.');
    cut.push('.');
    cut.push('.');
    out.push(string_from_chars(&cut));
    proof {
        let t = ls.take(max_lines as int);
        assert(cut@ =~= last@.take(f as int) + seq!['.', '.', '.']);
        assert(cut@ == shorten(t[max_lines - 1], max as nat));
        assert(out@.map_values(|x: String| x@) =~= t.update(max_lines - 1, shorten(t[max_lines - 1], max as nat)));
    }
    out
}


/// Cuts a word into parts of at most `max` bytes (see [`split_word`]).
pub fn split_label_word(word: &str, max: usize) -> (r: Vec<String>)
    ensures
        r@.map_values(|x: String| x@) == split_word(word@, max as nat),
{
    let cs = str_chars(word);
    let parts = split_word_at(&cs, 0, cs.len(), max);
    assert(cs@.subrange(0, cs@.len() as int) =~= cs@);
    let ghost pv = chars_views(parts@);
    let mut out: Vec<String> = Vec::new();
    let mut k: usize = 0;
    while k < parts.len()
        invariant
            k <= parts@.len(),
            pv == chars_views(parts@),
            out@.map_values(|x: String| x@) == pv.take(k as int),
        decreases parts.len() - k,
    {
        let part = string_from_chars(parts[k].as_slice());
        assert(part@ == pv[k as int]);
        let ghost before = out@;
        out.push(part);
        assert(out@.map_values(|x: String| x@) =~= before.map_values(|x: String| x@).push(part@));
        assert(pv.take(k + 1) =~= pv.take(k as int).push(pv[k as int]));
        k = k + 1;
    }
    assert(pv.take(pv.len() as int) =~= pv);
    out
}

} // verus!
