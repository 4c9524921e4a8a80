//! Text handling for the bubble: whitespace, words and greedy line wrapping.

use vstd::prelude::*;

verus! {

broadcast use vstd::string::group_string_axioms;

/// `String::push` of std: appends one character.
#[verifier::external_body]
pub(crate) fn push_text_char(s: &mut String, c: char)
    ensures
        final(s)@ == old(s)@.push(c),
{
    s.push(c);
}

/// The characters of `s`, in order.
pub fn chars_of(s: &str) -> (v: Vec<char>)
    ensures
        v@ == s@,
{
    let mut v: Vec<char> = Vec::new();
    for c in it: s.chars()
        invariant
            v@ == it.history(),
            it.seq() == s@,
    {
        v.push(c);
    }
    v
}

/// Unicode's `White_Space` property, which `char::is_whitespace` tests.
pub open spec fn is_white_space(c: char) -> bool {
    let u = c as u32;
    ||| u == 0x20
    ||| 0x09 <= u <= 0x0d
    ||| u == 0x85
    ||| u == 0xa0
    ||| u == 0x1680
    ||| 0x2000 <= u <= 0x200a
    ||| u == 0x2028
    ||| u == 0x2029
    ||| u == 0x202f
    ||| u == 0x205f
    ||| u == 0x3000
}

/// Whether `c` is white space in Unicode's sense.
pub fn is_whitespace_char(c: char) -> (b: bool)
    ensures
        b == is_white_space(c),
{
    let u = c as u32;
    u == 0x20 || (0x09 <= u && u <= 0x0d) || u == 0x85 || u == 0xa0 || u == 0x1680 || (0x2000 <= u && u <= 0x200a)
        || u == 0x2028 || u == 0x2029 || u == 0x202f || u == 0x205f || u == 0x3000
}

/// Every character of `s` is white space (so trimming leaves nothing).
pub open spec fn is_blank(s: Seq<char>) -> bool {
    forall|i: int| 0 <= i < s.len() ==> is_white_space(#[trigger] s[i])
}

/// Whether `s` holds nothing but white space, i.e. `s.trim()` is empty.
pub fn is_blank_str(s: &str) -> (b: bool)
    ensures
        b == is_blank(s@),
        s@.len() <= usize::MAX,
{
    let cs = chars_of(s);
    assert(s@.len() == cs.len());
    let mut i: usize = 0;
    while i < cs.len()
        invariant
            0 <= i <= cs.len(),
            cs@ == s@,
            forall|j: int| 0 <= j < i ==> is_white_space(#[trigger] s@[j]),
        decreases cs.len() - i,
    {
        if !is_whitespace_char(cs[i]) {
            return false;
        }
        i += 1;
    }
    true
}

/// The words of `rest` (maximal runs of non-white-space characters), the
/// first of them continuing the partial word `cur`.
pub open spec fn words_from(rest: Seq<char>, cur: Seq<char>) -> Seq<Seq<char>>
    decreases rest.len(),
{
    if rest.len() == 0 {
        if cur.len() == 0 {
            seq![]
        } else {
            seq![cur]
        }
    } else if is_white_space(rest[0]) {
        if cur.len() == 0 {
            words_from(rest.drop_first(), cur)
        } else {
            seq![cur] + words_from(rest.drop_first(), seq![])
        }
    } else {
        words_from(rest.drop_first(), cur.push(rest[0]))
    }
}

/// The words of `s` in order, as `str::split_whitespace` yields them.
pub open spec fn split_words(s: Seq<char>) -> Seq<Seq<char>> {
    words_from(s, seq![])
}

/// The number of pieces of at most `m` characters that `n` characters
/// split into.
pub open spec fn chunk_count(n: int, m: int) -> int {
    if n <= 0 || m <= 0 {
        0
    } else {
        (n + m - 1) / m
    }
}

pub open spec fn min(a: int, b: int) -> int {
    if a <= b {
        a
    } else {
        b
    }
}

/// `w` cut into consecutive pieces of `m` characters, the last piece
/// holding what is left.
pub open spec fn chunks(w: Seq<char>, m: int) -> Seq<Seq<char>> {
    Seq::new(chunk_count(w.len() as int, m) as nat, |j: int| w.subrange(j * m, min((j + 1) * m, w.len() as int)))
}

/// The lines and the open line after a word too long for a line is cut
/// into pieces of `m` characters: the open line, if any, is closed, every
/// piece but the last becomes a line, and the last piece is the new open
/// line.
pub open spec fn split_long(lines: Seq<Seq<char>>, line: Seq<char>, word: Seq<char>, m: int) -> (Seq<Seq<char>>, Seq<char>) {
    if word.len() == 0 {
        (lines, line)
    } else {
        let cs = chunks(word, m);
        let closed = if line.len() == 0 { lines } else { lines.push(line) };
        (closed + cs.drop_last(), cs.last())
    }
}

proof fn lemma_chunk_facts(n: int, m: int, j: int)
    requires
        n > 0,
        m > 0,
        j >= 0,
    ensures
        j < chunk_count(n, m) <==> j * m < n,
        chunk_count(n, m) >= 1,
        j < chunk_count(n, m) ==> min((j + 1) * m, n) - j * m <= m,
        j < chunk_count(n, m) ==> min((j + 1) * m, n) - j * m >= 1,
        (j + 1 == chunk_count(n, m)) <==> (j * m < n && (j + 1) * m >= n),
        (j + 1) * m == j * m + m,
{
    assert(j < (n + m - 1) / m <==> j * m < n) by (nonlinear_arith)
        requires n > 0, m > 0, j >= 0;
    assert((n + m - 1) / m >= 1) by (nonlinear_arith)
        requires n > 0, m > 0;
    assert((j + 1 == (n + m - 1) / m) <==> (j * m < n && (j + 1) * m >= n)) by (nonlinear_arith)
        requires n > 0, m > 0, j >= 0;
    assert((j + 1) * m == j * m + m) by (nonlinear_arith);
}

/// Cuts `word` into pieces of at most `max_cols` characters: the open
/// `line` is closed first if it holds anything, every piece but the last is
/// pushed as a line of its own, and the last piece is left open in `line`.
pub fn split_long_word(word: &str, max_cols: usize, lines: &mut Vec<String>, line: &mut String)
    requires
        max_cols > 0 || word@.len() == 0,
    ensures
        (final(lines).deep_view(), final(line)@) == split_long(old(lines).deep_view(), old(line)@, word@, max_cols as int),
{
    let chars = chars_of(word);
    let n = chars.len();
    let ghost m = max_cols as int;
    let ghost lines0 = lines.deep_view();
    let ghost line0 = line@;
    let ghost closed = if line0.len() == 0 { lines0 } else { lines0.push(line0) };
    let ghost cs = chunks(word@, m);
    let mut cursor: usize = 0;
    let ghost mut j: int = 0;
    while cursor < n
        invariant
            chars@ == word@,
            n == word@.len(),
            m == max_cols,
            m > 0 || n == 0,
            cs == chunks(word@, m),
            closed == (if line0.len() == 0 { lines0 } else { lines0.push(line0) }),
            j >= 0,
            cursor == j * m || cursor == n,
            cursor <= n,
            j == 0 ==> cursor == 0 && lines.deep_view() == lines0 && line@ == line0,
            j >= 1 && cursor < n ==> lines.deep_view() == closed + cs.take(j) && line@ == Seq::<char>::empty() && cursor == j * m,
            j >= 1 && cursor == n ==> lines.deep_view() == closed + cs.take(j - 1) && line@ == cs[j - 1] && j == cs.len(),
        decreases n - cursor,
    {
        proof {
            lemma_chunk_facts(n as int, m, j);
        }
        let end = if max_cols <= n - cursor { cursor + max_cols } else { n };
        let mut chunk = String::new();
        let mut k = cursor;
        while k < end
            invariant
                cursor <= k <= end <= n,
                chars@ == word@,
                n == word@.len(),
                chunk@ == word@.subrange(cursor as int, k as int),
            decreases end - k,
        {
            push_text_char(&mut chunk, chars[k]);
            k += 1;
        }
        proof {
            if cursor < n {
                assert(cursor == j * m);
                assert(j < cs.len());
                assert(end == min((j + 1) * m, n as int));
            }
        }
        assert(chunk@ == cs[j]);
        let ghost before_lines = lines.deep_view();
        if line.as_str().is_empty() {
            *line = chunk;
        } else {
            let mut taken = String::new();
            std::mem::swap(&mut taken, line);
            lines.push(taken);
            assert(lines.deep_view() =~= before_lines.push(taken@));
            *line = chunk;
        }
        cursor = end;
        proof {
            j = j + 1;
            lemma_chunk_facts(n as int, m, j - 1);
            assert(cs.take(j) =~= cs.take(j - 1).push(cs[j - 1]));
            if j == 1 {
                assert(cs.take(0) =~= Seq::<Seq<char>>::empty());
                assert(closed + cs.take(0) =~= closed);
            }
        }
        if cursor < n {
            let ghost before_lines2 = lines.deep_view();
            let mut taken = String::new();
            std::mem::swap(&mut taken, line);
            lines.push(taken);
            assert(lines.deep_view() =~= before_lines2.push(taken@));
        }
    }
}

/// The lines and the open line after one more word is placed: it joins
/// the open line after a space if it fits, starts a new line if it does
/// not, and is cut into pieces if it is longer than a line.
pub open spec fn wrap_step(state: (Seq<Seq<char>>, Seq<char>), word: Seq<char>, m: int) -> (Seq<Seq<char>>, Seq<char>) {
    let lines = state.0;
    let line = state.1;
    if line.len() == 0 {
        if word.len() <= m {
            (lines, line + word)
        } else {
            split_long(lines, line, word, m)
        }
    } else if line.len() + 1 + word.len() <= m {
        (lines, line.push(' ') + word)
    } else if word.len() <= m {
        (lines.push(line), word)
    } else {
        split_long(lines.push(line), seq![], word, m)
    }
}

/// The closed lines and the open line after `words` are placed in turn,
/// lines holding at most `m` characters.
pub open spec fn wrap_words(words: Seq<Seq<char>>, m: int) -> (Seq<Seq<char>>, Seq<char>)
    decreases words.len(),
{
    if words.len() == 0 {
        (seq![], seq![])
    } else {
        wrap_step(wrap_words(words.drop_last(), m), words.last(), m)
    }
}

/// The lines that `text` wraps into at `m` columns: the words of the text
/// placed greedily, a last open line closed; never no line at all.
pub open spec fn wrapped_lines(text: Seq<char>, m: int) -> Seq<Seq<char>> {
    if m <= 0 {
        seq![seq![]]
    } else {
        let state = wrap_words(split_words(text), m);
        let all = if state.1.len() == 0 { state.0 } else { state.0.push(state.1) };
        if all.len() == 0 {
            seq![seq![]]
        } else {
            all
        }
    }
}

fn place_word(lines: &mut Vec<String>, line: &mut String, word: &String, word_len: usize, max_cols: usize)
    requires
        max_cols > 0,
        word_len == word@.len(),
    ensures
        (final(lines).deep_view(), final(line)@) == wrap_step((old(lines).deep_view(), old(line)@), word@, max_cols as int),
{
    let line_len = line.as_str().unicode_len();
    if line_len == 0 {
        if word_len <= max_cols {
            line.append(word.as_str());
        } else {
            split_long_word(word.as_str(), max_cols, lines, line);
        }
        return;
    }
    let proposed: u128 = line_len as u128 + 1 + word_len as u128;
    if proposed <= max_cols as u128 {
        push_text_char(line, ' ');
        line.append(word.as_str());
    } else {
        let ghost before_lines = lines.deep_view();
        let mut taken = String::new();
        std::mem::swap(&mut taken, line);
        lines.push(taken);
        assert(lines.deep_view() =~= before_lines.push(taken@));
        if word_len <= max_cols {
            line.append(word.as_str());
        } else {
            split_long_word(word.as_str(), max_cols, lines, line);
        }
    }
}

proof fn lemma_words_from_step(rest: Seq<char>, cur: Seq<char>)
    requires
        rest.len() > 0,
    ensures
        words_from(rest, cur) == (if is_white_space(rest[0]) {
            if cur.len() == 0 {
                words_from(rest.drop_first(), cur)
            } else {
                seq![cur] + words_from(rest.drop_first(), seq![])
            }
        } else {
            words_from(rest.drop_first(), cur.push(rest[0]))
        }),
{
}

/// Wraps `text` into lines of at most `max_cols` characters: words are
/// placed greedily, joined by single spaces, and a word longer than a line
/// is cut into pieces.  There is always at least one line (possibly
/// empty); with `max_cols == 0` the result is a single empty line.
pub fn wrap_text(text: &str, max_cols: usize) -> (lines: Vec<String>)
    ensures
        lines.deep_view() == wrapped_lines(text@, max_cols as int),
{
    if max_cols == 0 {
        let mut v: Vec<String> = Vec::new();
        v.push(String::new());
        assert(v.deep_view() =~= seq![Seq::<char>::empty()]);
        return v;
    }
    let ghost m = max_cols as int;
    let chars = chars_of(text);
    let mut lines: Vec<String> = Vec::new();
    let mut line = String::new();
    let mut word = String::new();
    let mut word_len: usize = 0;
    let ghost mut done: Seq<Seq<char>> = seq![];
    let mut i: usize = 0;
    assert(text@.skip(0) =~= text@);
    assert(lines.deep_view() =~= Seq::<Seq<char>>::empty());
    while i < chars.len()
        invariant
            0 <= i <= chars.len(),
            chars@ == text@,
            m == max_cols,
            m > 0,
            word_len == word@.len(),
            word_len <= i,
            split_words(text@) == done + words_from(text@.skip(i as int), word@),
            (lines.deep_view(), line@) == wrap_words(done, m),
        decreases chars.len() - i,
    {
        let c = chars[i];
        let ghost rest = text@.skip(i as int);
        proof {
            lemma_words_from_step(rest, word@);
            assert(rest.drop_first() =~= text@.skip(i + 1));
            assert(rest[0] == c);
        }
        if is_whitespace_char(c) {
            if word_len > 0 {
                place_word(&mut lines, &mut line, &word, word_len, max_cols);
                proof {
                    assert(done.push(word@).drop_last() =~= done);
                    assert(done + (seq![word@] + words_from(text@.skip(i + 1), seq![])) =~= done.push(word@) + words_from(text@.skip(i + 1), seq![]));
                    done = done.push(word@);
                }
                word = String::new();
                word_len = 0;
            }
        } else {
            push_text_char(&mut word, c);
            word_len = word_len + 1;
        }
        i = i + 1;
    }
    proof {
        assert(text@.skip(i as int).len() == 0);
    }
    if word_len > 0 {
        place_word(&mut lines, &mut line, &word, word_len, max_cols);
        proof {
            assert(done.push(word@).drop_last() =~= done);
            assert(done + seq![word@] =~= done.push(word@));
            done = done.push(word@);
        }
    } else {
        assert(done + Seq::<Seq<char>>::empty() =~= done);
    }
    if !line.as_str().is_empty() {
        let ghost before_lines = lines.deep_view();
        let ghost open = line@;
        lines.push(line);
        assert(lines.deep_view() =~= before_lines.push(open));
    }
    if lines.len() == 0 {
        let mut v: Vec<String> = Vec::new();
        v.push(String::new());
        assert(v.deep_view() =~= seq![Seq::<char>::empty()]);
        return v;
    }
    lines
}

/// The first `max_chars` characters of `text` (all of it if it is shorter).
pub fn take_chars(text: &str, max_chars: usize) -> (r: String)
    ensures
        r@ == text@.take(min(max_chars as int, text@.len() as int)),
{
    let chars = chars_of(text);
    let mut r = String::new();
    let mut i: usize = 0;
    while i < chars.len() && i < max_chars
        invariant
            0 <= i <= chars.len(),
            i <= max_chars,
            chars@ == text@,
            r@ == text@.take(i as int),
        decreases chars.len() - i,
    {
        push_text_char(&mut r, chars[i]);
        assert(text@.take(i + 1) =~= text@.take(i as int).push(chars@[i as int]));
        i += 1;
    }
    r
}

/// All the lines one after the other.
pub open spec fn concat_lines(lines: Seq<Seq<char>>) -> Seq<char>
    decreases lines.len(),
{
    if lines.len() == 0 {
        seq![]
    } else {
        concat_lines(lines.drop_last()) + lines.last()
    }
}

/// `s` without its white space.
pub open spec fn strip_white_space(s: Seq<char>) -> Seq<char> {
    s.filter(|c: char| !is_white_space(c))
}

proof fn lemma_concat_add(a: Seq<Seq<char>>, b: Seq<Seq<char>>)
    ensures
        concat_lines(a + b) == concat_lines(a) + concat_lines(b),
    decreases b.len(),
{
    if b.len() == 0 {
        assert(a + b =~= a);
        assert(concat_lines(a) + concat_lines(b) =~= concat_lines(a));
    } else {
        assert((a + b).drop_last() =~= a + b.drop_last());
        lemma_concat_add(a, b.drop_last());
        assert(concat_lines(a) + concat_lines(b.drop_last()) + b.last() =~= concat_lines(a) + (concat_lines(b.drop_last()) + b.last()));
    }
}

proof fn lemma_concat_single(l: Seq<char>)
    ensures
        concat_lines(seq![l]) == l,
{
    assert(seq![l].drop_last() =~= Seq::<Seq<char>>::empty());
    assert(concat_lines(Seq::<Seq<char>>::empty()) == Seq::<char>::empty());
    assert(Seq::<char>::empty() + l =~= l);
}

proof fn lemma_strip_add(a: Seq<char>, b: Seq<char>)
    ensures
        strip_white_space(a + b) == strip_white_space(a) + strip_white_space(b),
{
    Seq::filter_distributes_over_add(a, b, |c: char| !is_white_space(c));
}

proof fn lemma_strip_no_ws(w: Seq<char>)
    requires
        forall|i: int| 0 <= i < w.len() ==> !is_white_space(#[trigger] w[i]),
    ensures
        strip_white_space(w) == w,
    decreases w.len(),
{
    reveal(Seq::filter);
    if w.len() > 0 {
        lemma_strip_no_ws(w.drop_last());
        assert(w.drop_last().push(w.last()) =~= w);
    } else {
        assert(w.filter(|c: char| !is_white_space(c)) =~= w);
    }
}

proof fn lemma_strip_one(c: char)
    ensures
        strip_white_space(seq![c]) == (if is_white_space(c) { Seq::<char>::empty() } else { seq![c] }),
{
    reveal(Seq::filter);
    assert(seq![c].drop_last() =~= Seq::<char>::empty());
    assert(Seq::<char>::empty().filter(|c: char| !is_white_space(c)) =~= Seq::<char>::empty());
}

/// `s` has no white space in it.
pub open spec fn no_white_space(s: Seq<char>) -> bool {
    forall|i: int| 0 <= i < s.len() ==> !is_white_space(#[trigger] s[i])
}

proof fn lemma_words_from_content(rest: Seq<char>, cur: Seq<char>)
    requires
        no_white_space(cur),
    ensures
        concat_lines(words_from(rest, cur)) == cur + strip_white_space(rest),
        forall|i: int| 0 <= i < words_from(rest, cur).len() ==> no_white_space(#[trigger] words_from(rest, cur)[i])
            && words_from(rest, cur)[i].len() > 0,
    decreases rest.len(),
{
    if rest.len() == 0 {
        assert(strip_white_space(rest) =~= Seq::<char>::empty()) by {
            reveal(Seq::filter);
        }
        if cur.len() == 0 {
            assert(cur + strip_white_space(rest) =~= Seq::<char>::empty());
        } else {
            lemma_concat_single(cur);
            assert(cur + strip_white_space(rest) =~= cur);
        }
    } else {
        let c = rest[0];
        let tail = rest.drop_first();
        assert(rest =~= seq![c] + tail);
        lemma_strip_add(seq![c], tail);
        lemma_strip_one(c);
        if is_white_space(c) {
            if cur.len() == 0 {
                lemma_words_from_content(tail, cur);
                assert(strip_white_space(rest) =~= strip_white_space(tail));
            } else {
                lemma_words_from_content(tail, seq![]);
                lemma_concat_add(seq![cur], words_from(tail, seq![]));
                lemma_concat_single(cur);
                assert(Seq::<char>::empty() + strip_white_space(tail) =~= strip_white_space(tail));
                assert(strip_white_space(rest) =~= strip_white_space(tail));
                let ws = seq![cur] + words_from(tail, seq![]);
                assert forall|i: int| 0 <= i < ws.len() implies no_white_space(#[trigger] ws[i]) && ws[i].len() > 0 by {
                    if i > 0 {
                        assert(ws[i] == words_from(tail, seq![])[i - 1]);
                    }
                }
            }
        } else {
            lemma_words_from_content(tail, cur.push(c));
            assert(cur.push(c) + strip_white_space(tail) =~= cur + (seq![c] + strip_white_space(tail)));
        }
    }
}

/// The words of a text hold all of its non-white-space characters, in
/// order, and none of its white space.
pub proof fn lemma_words_keep_text(text: Seq<char>)
    ensures
        concat_lines(split_words(text)) == strip_white_space(text),
        forall|i: int| 0 <= i < split_words(text).len() ==> no_white_space(#[trigger] split_words(text)[i])
            && split_words(text)[i].len() > 0,
{
    lemma_words_from_content(text, seq![]);
    assert(Seq::<char>::empty() + strip_white_space(text) =~= strip_white_space(text));
}

proof fn lemma_chunks_prefix(w: Seq<char>, m: int, j: int)
    requires
        w.len() > 0,
        m > 0,
        0 <= j <= chunk_count(w.len() as int, m),
    ensures
        concat_lines(chunks(w, m).take(j)) == w.take(min(j * m, w.len() as int)),
    decreases j,
{
    let cs = chunks(w, m);
    let n = w.len() as int;
    if j == 0 {
        assert(cs.take(0) =~= Seq::<Seq<char>>::empty());
        assert(w.take(0) =~= Seq::<char>::empty());
    } else {
        lemma_chunks_prefix(w, m, j - 1);
        lemma_chunk_facts(n, m, j - 1);
        assert(cs.take(j).drop_last() =~= cs.take(j - 1));
        assert(cs.take(j).last() == w.subrange((j - 1) * m, min(j * m, n)));
        assert(min((j - 1) * m, n) == (j - 1) * m);
        assert(w.take((j - 1) * m) + w.subrange((j - 1) * m, min(j * m, n)) =~= w.take(min(j * m, n)));
    }
}

proof fn lemma_chunks_props(w: Seq<char>, m: int)
    requires
        w.len() > 0,
        m > 0,
        no_white_space(w),
    ensures
        chunks(w, m).len() >= 1,
        concat_lines(chunks(w, m)) == w,
        forall|i: int| 0 <= i < chunks(w, m).len() ==> 1 <= #[trigger] chunks(w, m)[i].len() <= m
            && no_white_space(chunks(w, m)[i]),
{
    let cs = chunks(w, m);
    let n = w.len() as int;
    let count = chunk_count(n, m);
    lemma_chunk_facts(n, m, 0);
    lemma_chunks_prefix(w, m, count);
    assert(cs.take(count) =~= cs);
    lemma_chunk_facts(n, m, count - 1);
    assert(count * m >= n) by (nonlinear_arith)
        requires (count - 1) * m < n, count * m == (count - 1) * m + m, (count - 1 + 1) * m >= n;
    assert(w.take(n) =~= w);
    assert forall|i: int| 0 <= i < cs.len() implies 1 <= #[trigger] cs[i].len() <= m && no_white_space(cs[i]) by {
        lemma_chunk_facts(n, m, i);
        assert forall|k: int| 0 <= k < cs[i].len() implies !is_white_space(#[trigger] cs[i][k]) by {
            assert(cs[i][k] == w[i * m + k]);
        }
    }
}

/// What wrapping keeps true after every word: closed lines hold between 1
/// and `m` characters, the open line at most `m`, and the lines together
/// hold exactly the words placed so far, spaces aside.
pub open spec fn wrap_state_ok(state: (Seq<Seq<char>>, Seq<char>), placed: Seq<Seq<char>>, m: int) -> bool {
    &&& forall|i: int| 0 <= i < state.0.len() ==> 1 <= #[trigger] state.0[i].len() <= m
    &&& state.1.len() <= m
    &&& strip_white_space(concat_lines(state.0) + state.1) == concat_lines(placed)
}

proof fn lemma_split_long_ok(lines: Seq<Seq<char>>, line: Seq<char>, word: Seq<char>, m: int, placed: Seq<Seq<char>>)
    requires
        m > 0,
        word.len() > 0,
        no_white_space(word),
        forall|i: int| 0 <= i < lines.len() ==> 1 <= #[trigger] lines[i].len() <= m,
        line.len() <= m,
        strip_white_space(concat_lines(lines) + line) == concat_lines(placed),
    ensures
        wrap_state_ok(split_long(lines, line, word, m), placed.push(word), m),
{
    let cs = chunks(word, m);
    lemma_chunks_props(word, m);
    let closed = if line.len() == 0 { lines } else { lines.push(line) };
    let res = split_long(lines, line, word, m);
    assert(res.0 == closed + cs.drop_last());
    assert(concat_lines(closed) == concat_lines(lines) + line) by {
        if line.len() == 0 {
            assert(concat_lines(lines) + line =~= concat_lines(lines));
        } else {
            assert(lines.push(line).drop_last() =~= lines);
        }
    }
    lemma_concat_add(closed, cs.drop_last());
    assert(cs.drop_last().push(cs.last()) =~= cs);
    assert(concat_lines(cs) == concat_lines(cs.drop_last()) + cs.last());
    assert(concat_lines(res.0) + res.1 =~= (concat_lines(lines) + line) + word);
    lemma_strip_add(concat_lines(lines) + line, word);
    lemma_strip_no_ws(word);
    assert(placed.push(word).drop_last() =~= placed);
    assert forall|i: int| 0 <= i < res.0.len() implies 1 <= #[trigger] res.0[i].len() <= m by {
        if i < closed.len() {
            if line.len() > 0 && i == lines.len() {
            } else {
                assert(res.0[i] == lines[i]);
            }
        } else {
            assert(res.0[i] == cs[i - closed.len()]);
        }
    }
}

proof fn lemma_wrap_step_ok(state: (Seq<Seq<char>>, Seq<char>), placed: Seq<Seq<char>>, word: Seq<char>, m: int)
    requires
        m > 0,
        word.len() > 0,
        no_white_space(word),
        wrap_state_ok(state, placed, m),
    ensures
        wrap_state_ok(wrap_step(state, word, m), placed.push(word), m),
{
    let lines = state.0;
    let line = state.1;
    let prefix = concat_lines(lines) + line;
    assert(placed.push(word).drop_last() =~= placed);
    lemma_strip_no_ws(word);
    if line.len() == 0 {
        if word.len() <= m {
            assert(concat_lines(lines) + (line + word) =~= prefix + word);
            lemma_strip_add(prefix, word);
        } else {
            lemma_split_long_ok(lines, line, word, m, placed);
        }
    } else if line.len() + 1 + word.len() <= m {
        assert(concat_lines(lines) + (line.push(' ') + word) =~= (prefix + seq![' ']) + word);
        lemma_strip_add(prefix + seq![' '], word);
        lemma_strip_add(prefix, seq![' ']);
        lemma_strip_one(' ');
        assert(strip_white_space(prefix) + Seq::<char>::empty() =~= strip_white_space(prefix));
    } else {
        let pushed = lines.push(line);
        assert(pushed.drop_last() =~= lines);
        assert(concat_lines(pushed) == prefix);
        assert forall|i: int| 0 <= i < pushed.len() implies 1 <= #[trigger] pushed[i].len() <= m by {
            if i < lines.len() {
                assert(pushed[i] == lines[i]);
            }
        }
        if word.len() <= m {
            lemma_strip_add(prefix, word);
        } else {
            assert(concat_lines(pushed) + Seq::<char>::empty() =~= prefix);
            lemma_split_long_ok(pushed, seq![], word, m, placed);
        }
    }
}

proof fn lemma_wrap_words_ok(words: Seq<Seq<char>>, m: int)
    requires
        m > 0,
        forall|i: int| 0 <= i < words.len() ==> no_white_space(#[trigger] words[i]) && words[i].len() > 0,
    ensures
        wrap_state_ok(wrap_words(words, m), words, m),
    decreases words.len(),
{
    if words.len() == 0 {
        assert(concat_lines(Seq::<Seq<char>>::empty()) == Seq::<char>::empty());
        assert(Seq::<char>::empty() + Seq::<char>::empty() =~= Seq::<char>::empty());
        assert(strip_white_space(Seq::<char>::empty()) =~= Seq::<char>::empty()) by {
            reveal(Seq::filter);
        }
    } else {
        let prev = words.drop_last();
        assert forall|i: int| 0 <= i < prev.len() implies no_white_space(#[trigger] prev[i]) && prev[i].len() > 0 by {
            assert(prev[i] == words[i]);
        }
        lemma_wrap_words_ok(prev, m);
        assert(prev.push(words.last()) =~= words);
        lemma_wrap_step_ok(wrap_words(prev, m), prev, words.last(), m);
    }
}

/// Wrapping loses and adds nothing but white space: the wrapped lines,
/// white space removed, spell out the text with its white space removed.
pub proof fn lemma_wrap_keeps_text(text: Seq<char>, max_cols: int)
    requires
        max_cols > 0,
    ensures
        strip_white_space(concat_lines(wrapped_lines(text, max_cols))) == strip_white_space(text),
{
    let words = split_words(text);
    lemma_words_keep_text(text);
    lemma_wrap_words_ok(words, max_cols);
    let state = wrap_words(words, max_cols);
    let all = if state.1.len() == 0 { state.0 } else { state.0.push(state.1) };
    assert(concat_lines(all) == concat_lines(state.0) + state.1) by {
        if state.1.len() == 0 {
            assert(concat_lines(state.0) + state.1 =~= concat_lines(state.0));
        } else {
            assert(state.0.push(state.1).drop_last() =~= state.0);
        }
    }
    if all.len() == 0 {
        lemma_concat_single(Seq::<char>::empty());
        assert(concat_lines(state.0) + state.1 =~= Seq::<char>::empty());
    }
}

/// Every wrapped line fits: each holds between 1 and `max_cols`
/// characters, except for the one empty line that a text without words
/// wraps into.
pub proof fn lemma_wrap_lines_fit(text: Seq<char>, max_cols: int)
    requires
        max_cols > 0,
    ensures
        wrapped_lines(text, max_cols).len() >= 1,
        split_words(text).len() == 0 ==> wrapped_lines(text, max_cols) == seq![Seq::<char>::empty()],
        split_words(text).len() > 0 ==> forall|i: int| 0 <= i < wrapped_lines(text, max_cols).len()
            ==> 1 <= #[trigger] wrapped_lines(text, max_cols)[i].len() <= max_cols,
{
    let words = split_words(text);
    lemma_words_keep_text(text);
    lemma_wrap_words_ok(words, max_cols);
    let state = wrap_words(words, max_cols);
    let all = if state.1.len() == 0 { state.0 } else { state.0.push(state.1) };
    if words.len() == 0 {
        assert(state == (Seq::<Seq<char>>::empty(), Seq::<char>::empty()));
    } else {
        assert(words.drop_last().push(words.last()) =~= words);
        // the last placed word is non-empty, so something is on a line
        if all.len() == 0 {
            lemma_concat_add(words.drop_last(), seq![words.last()]);
            lemma_concat_single(words.last());
            lemma_strip_no_ws(words.last());
            assert(concat_lines(state.0) + state.1 =~= Seq::<char>::empty());
            assert(strip_white_space(Seq::<char>::empty()) =~= Seq::<char>::empty()) by {
                reveal(Seq::filter);
            }
            assert(concat_lines(words).len() >= words.last().len());
            assert(false);
        }
        assert forall|i: int| 0 <= i < all.len() implies 1 <= #[trigger] all[i].len() <= max_cols by {
            if i < state.0.len() {
                assert(all[i] == state.0[i]);
            }
        }
    }
}

/// Spaces in `s` only ever separate words: no white space but the plain
/// space, none at either end, and never two in a row.
pub open spec fn well_spaced(s: Seq<char>) -> bool {
    forall|i: int|
        0 <= i < s.len() ==> (is_white_space(#[trigger] s[i]) ==> s[i] == ' ') && (s[i] == ' ' ==> 0 < i < s.len() - 1 && s[i
            - 1] != ' ' && s[i + 1] != ' ')
}

/// The characters of `s` before its first space.
pub open spec fn first_word(s: Seq<char>) -> Seq<char>
    decreases s.len(),
{
    if s.len() == 0 || s[0] == ' ' {
        seq![]
    } else {
        seq![s[0]] + first_word(s.drop_first())
    }
}

proof fn lemma_first_word_no_space(s: Seq<char>)
    requires
        no_white_space(s),
    ensures
        first_word(s) == s,
    decreases s.len(),
{
    if s.len() > 0 {
        assert(no_white_space(s.drop_first())) by {
            assert forall|i: int| 0 <= i < s.drop_first().len() implies !is_white_space(#[trigger] s.drop_first()[i]) by {
                assert(s.drop_first()[i] == s[i + 1]);
            }
        }
        lemma_first_word_no_space(s.drop_first());
        assert(seq![s[0]] + s.drop_first() =~= s);
    }
}

proof fn lemma_first_word_append(a: Seq<char>, b: Seq<char>)
    requires
        a.len() > 0,
    ensures
        first_word(a + seq![' '] + b) == first_word(a),
    decreases a.len(),
{
    let t = a + seq![' '] + b;
    assert(t[0] == a[0]);
    if a[0] != ' ' {
        if a.len() == 1 {
            assert(t.drop_first() =~= seq![' '] + b);
            assert(a.drop_first() =~= Seq::<char>::empty());
            assert(first_word(t.drop_first()) =~= Seq::<char>::empty());
            assert(first_word(a.drop_first()) =~= Seq::<char>::empty());
        } else {
            lemma_first_word_append(a.drop_first(), b);
            assert(t.drop_first() =~= a.drop_first() + seq![' '] + b);
        }
        assert(first_word(t) == seq![a[0]] + first_word(t.drop_first()));
        assert(first_word(a) == seq![a[0]] + first_word(a.drop_first()));
    }
}

/// What wrapping keeps true of the shape of its lines: every line is well
/// spaced and not empty (the open line may be empty only before anything
/// was placed), and no closed line could have taken the first word of the
/// line after it.
pub open spec fn wrap_shape_ok(state: (Seq<Seq<char>>, Seq<char>), m: int) -> bool {
    let all = state.0.push(state.1);
    &&& state.1.len() == 0 ==> state.0.len() == 0
    &&& forall|i: int| 0 <= i < all.len() ==> #[trigger] well_spaced(all[i])
    &&& forall|i: int| 0 <= i < state.0.len() ==> #[trigger] all[i].len() + 1 + first_word(all[i + 1]).len() > m
}

proof fn lemma_word_spaced(w: Seq<char>)
    requires
        no_white_space(w),
    ensures
        well_spaced(w),
{
    assert forall|i: int| 0 <= i < w.len() implies (is_white_space(#[trigger] w[i]) ==> w[i] == ' ') && (w[i] == ' ' ==> 0 < i
        < w.len() - 1 && w[i - 1] != ' ' && w[i + 1] != ' ') by {
        assert(!is_white_space(w[i]));
        assert(is_white_space(' '));
    }
}

proof fn lemma_join_spaced(a: Seq<char>, w: Seq<char>)
    requires
        well_spaced(a),
        a.len() > 0,
        no_white_space(w),
        w.len() > 0,
    ensures
        well_spaced(a.push(' ') + w),
{
    let t = a.push(' ') + w;
    let n = a.len() as int;
    assert(is_white_space(' '));
    assert(a[n - 1] != ' ');
    assert(!is_white_space(w[0]));
    assert forall|i: int| 0 <= i < t.len() implies (is_white_space(#[trigger] t[i]) ==> t[i] == ' ') && (t[i] == ' ' ==> 0 < i
        < t.len() - 1 && t[i - 1] != ' ' && t[i + 1] != ' ') by {
        if i < n {
            assert(t[i] == a[i]);
            if i + 1 < n {
                assert(t[i + 1] == a[i + 1]);
            }
            if i > 0 {
                assert(t[i - 1] == a[i - 1]);
            }
        } else if i == n {
            assert(t[i + 1] == w[0]);
        } else {
            assert(t[i] == w[i - n - 1]);
            assert(!is_white_space(w[i - n - 1]));
        }
    }
}

proof fn lemma_chunks_full(w: Seq<char>, m: int, j: int)
    requires
        w.len() > 0,
        m > 0,
        0 <= j,
        j + 1 < chunks(w, m).len(),
    ensures
        chunks(w, m)[j].len() == m,
{
    lemma_chunk_facts(w.len() as int, m, j + 1);
    lemma_chunk_facts(w.len() as int, m, j);
}

proof fn lemma_split_long_shape(lines: Seq<Seq<char>>, word: Seq<char>, m: int)
    requires
        m > 0,
        word.len() > m,
        no_white_space(word),
        forall|i: int| 0 <= i < lines.len() ==> #[trigger] well_spaced(lines[i]),
        forall|i: int| 0 <= i < lines.len() ==> #[trigger] lines[i].len() > 0,
        forall|i: int| 0 <= i < lines.len() - 1 ==> #[trigger] lines[i].len() + 1 + first_word(lines[i + 1]).len() > m,
    ensures
        wrap_shape_ok(split_long(lines, seq![], word, m), m),
{
    let cs = chunks(word, m);
    lemma_chunks_props(word, m);
    let res = split_long(lines, seq![], word, m);
    let all = res.0.push(res.1);
    let k = lines.len() as int;
    assert(all =~= lines + cs);
    let n = word.len() as int;
    assert((n + m - 1) / m >= 2) by (nonlinear_arith)
        requires n > m, m > 0;
    lemma_chunks_full(word, m, 0);
    assert forall|i: int| 0 <= i < all.len() implies #[trigger] well_spaced(all[i]) by {
        if i < k {
            assert(all[i] == lines[i]);
        } else {
            assert(all[i] == cs[i - k]);
            lemma_word_spaced(cs[i - k]);
        }
    }
    assert forall|i: int| 0 <= i < res.0.len() implies #[trigger] all[i].len() + 1 + first_word(all[i + 1]).len() > m by {
        if i < k - 1 {
            assert(all[i] == lines[i] && all[i + 1] == lines[i + 1]);
        } else if i == k - 1 {
            assert(all[i + 1] == cs[0]);
            lemma_first_word_no_space(cs[0]);
            assert(all[i] == lines[i]);
        } else {
            assert(all[i] == cs[i - k]);
            lemma_chunks_full(word, m, i - k);
        }
    }
}

proof fn lemma_wrap_step_shape(state: (Seq<Seq<char>>, Seq<char>), word: Seq<char>, m: int)
    requires
        m > 0,
        word.len() > 0,
        no_white_space(word),
        wrap_shape_ok(state, m),
        forall|i: int| 0 <= i < state.0.len() ==> #[trigger] state.0[i].len() > 0,
    ensures
        wrap_shape_ok(wrap_step(state, word, m), m),
        forall|i: int| 0 <= i < wrap_step(state, word, m).0.len() ==> #[trigger] wrap_step(state, word, m).0[i].len() > 0,
{
    let lines = state.0;
    let line = state.1;
    let all = lines.push(line);
    let k = lines.len() as int;
    lemma_word_spaced(word);
    lemma_first_word_no_space(word);
    if line.len() == 0 {
        assert(lines.len() == 0);
        if word.len() <= m {
            let r = wrap_step(state, word, m);
            assert(r.0.push(r.1) =~= seq![word]);
        } else {
            assert(line =~= Seq::<char>::empty());
            lemma_split_long_shape(lines, word, m);
            lemma_chunks_props(word, m);
        }
    } else if line.len() + 1 + word.len() <= m {
        let r = wrap_step(state, word, m);
        let all2 = r.0.push(r.1);
        assert(well_spaced(all[k]));
        lemma_join_spaced(line, word);
        lemma_first_word_append(line, word);
        assert(line.push(' ') + word =~= line + seq![' '] + word);
        assert forall|i: int| 0 <= i < all2.len() implies #[trigger] well_spaced(all2[i]) by {
            if i < k {
                assert(all2[i] == all[i]);
            }
        }
        assert forall|i: int| 0 <= i < r.0.len() implies #[trigger] all2[i].len() + 1 + first_word(all2[i + 1]).len() > m by {
            assert(all2[i] == all[i]);
            if i + 1 < k {
                assert(all2[i + 1] == all[i + 1]);
            } else {
                assert(all[i + 1] == line);
            }
        }
    } else {
        let pushed = lines.push(line);
        assert forall|i: int| 0 <= i < pushed.len() implies #[trigger] well_spaced(pushed[i]) by {
            assert(pushed[i] == all[i]);
        }
        assert forall|i: int| 0 <= i < pushed.len() implies #[trigger] pushed[i].len() > 0 by {
            if i < k {
                assert(pushed[i] == lines[i]);
            }
        }
        if word.len() <= m {
            let r = wrap_step(state, word, m);
            let all2 = r.0.push(r.1);
            assert(all2 =~= all.push(word));
            assert forall|i: int| 0 <= i < all2.len() implies #[trigger] well_spaced(all2[i]) by {
                if i < all.len() {
                    assert(all2[i] == all[i]);
                }
            }
            assert forall|i: int| 0 <= i < r.0.len() implies #[trigger] all2[i].len() + 1 + first_word(all2[i + 1]).len() > m by {
                assert(all2[i] == all[i]);
                if i < k {
                    assert(all2[i + 1] == all[i + 1]);
                }
            }
        } else {
            assert forall|i: int| 0 <= i < pushed.len() - 1 implies #[trigger] pushed[i].len() + 1 + first_word(pushed[i + 1]).len() > m by {
                assert(pushed[i] == all[i] && pushed[i + 1] == all[i + 1]);
            }
            lemma_split_long_shape(pushed, word, m);
            lemma_chunks_props(word, m);
            let r = wrap_step(state, word, m);
            assert forall|i: int| 0 <= i < r.0.len() implies #[trigger] r.0[i].len() > 0 by {
                if i >= pushed.len() {
                    assert(r.0[i] == chunks(word, m)[i - pushed.len()]);
                } else {
                    assert(r.0[i] == pushed[i]);
                }
            }
        }
    }
    if line.len() == 0 && word.len() > m {
        let r = wrap_step(state, word, m);
        assert forall|i: int| 0 <= i < r.0.len() implies #[trigger] r.0[i].len() > 0 by {
            assert(r.0[i] == chunks(word, m)[i]);
        }
    }
}

proof fn lemma_wrap_words_shape(words: Seq<Seq<char>>, m: int)
    requires
        m > 0,
        forall|i: int| 0 <= i < words.len() ==> no_white_space(#[trigger] words[i]) && words[i].len() > 0,
    ensures
        wrap_shape_ok(wrap_words(words, m), m),
        forall|i: int| 0 <= i < wrap_words(words, m).0.len() ==> #[trigger] wrap_words(words, m).0[i].len() > 0,
    decreases words.len(),
{
    if words.len() == 0 {
        let st = wrap_words(words, m);
        assert(st.0.push(st.1) =~= seq![Seq::<char>::empty()]);
        assert(well_spaced(Seq::<char>::empty()));
    } else {
        let prev = words.drop_last();
        assert forall|i: int| 0 <= i < prev.len() implies no_white_space(#[trigger] prev[i]) && prev[i].len() > 0 by {
            assert(prev[i] == words[i]);
        }
        lemma_wrap_words_shape(prev, m);
        lemma_wrap_step_shape(wrap_words(prev, m), words.last(), m);
    }
}

/// Every wrapped line is well spaced: words joined by single spaces, no
/// space at either end and no other white space.  And wrapping is greedy:
/// no line could also have taken the first word (or piece of a word) that
/// begins the next line.
pub proof fn lemma_wrap_lines_shape(text: Seq<char>, max_cols: int)
    requires
        max_cols > 0,
    ensures
        forall|i: int| 0 <= i < wrapped_lines(text, max_cols).len() ==> #[trigger] well_spaced(wrapped_lines(text, max_cols)[i]),
        forall|i: int| 0 <= i < wrapped_lines(text, max_cols).len() - 1 ==> #[trigger] wrapped_lines(text, max_cols)[i].len() + 1
            + first_word(wrapped_lines(text, max_cols)[i + 1]).len() > max_cols,
{
    let words = split_words(text);
    lemma_words_keep_text(text);
    lemma_wrap_words_shape(words, max_cols);
    let state = wrap_words(words, max_cols);
    let all = state.0.push(state.1);
    let lines = wrapped_lines(text, max_cols);
    if state.1.len() == 0 {
        assert(state.0.len() == 0);
        assert(lines =~= seq![Seq::<char>::empty()]);
        assert(well_spaced(Seq::<char>::empty()));
    } else {
        assert(lines == all);
    }
}

} // verus!
