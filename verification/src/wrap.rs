//! Greedy word wrapping of note text into lines of bounded width.

use vstd::prelude::*;
use crate::text::{is_space, is_white, lemma_trim_start_skip, trim_start};

verus! {

/// Length of the leading run of non-white characters of `s`.
pub open spec fn word_len(s: Seq<char>) -> nat
    decreases s.len(),
{
    if s.len() > 0 && !is_space(s[0]) {
        1 + word_len(s.drop_first())
    } else {
        0
    }
}

proof fn lemma_trim_start_shape(s: Seq<char>)
    ensures
        trim_start(s).len() <= s.len(),
        trim_start(s).len() > 0 ==> !is_space(trim_start(s)[0]),
        trim_start(s) == s.subrange(s.len() - trim_start(s).len(), s.len() as int),
        forall|k: int| 0 <= k < s.len() - trim_start(s).len() ==> is_space(#[trigger] s[k]),
    decreases s.len(),
{
    if s.len() > 0 && is_space(s[0]) {
        lemma_trim_start_shape(s.drop_first());
        assert forall|k: int| 0 <= k < s.len() - trim_start(s).len() implies is_space(#[trigger] s[k]) by {
            if k > 0 {
                assert(s[k] == s.drop_first()[k - 1]);
            }
        }
    } else {
        assert(s.subrange(0, s.len() as int) =~= s);
    }
}

proof fn lemma_word_len(s: Seq<char>, m: int)
    requires
        0 <= m <= s.len(),
        forall|k: int| 0 <= k < m ==> !is_space(#[trigger] s[k]),
        m == s.len() || is_space(s[m]),
    ensures
        word_len(s) == m,
    decreases m,
{
    if m > 0 {
        assert forall|k: int| 0 <= k < m - 1 implies !is_space(#[trigger] s.drop_first()[k]) by {
            assert(s.drop_first()[k] == s[k + 1]);
        }
        lemma_word_len(s.drop_first(), m - 1);
    }
}

proof fn lemma_word_len_bound(s: Seq<char>)
    ensures
        word_len(s) <= s.len(),
        s.len() > 0 && !is_space(s[0]) ==> word_len(s) >= 1,
    decreases s.len(),
{
    if s.len() > 0 && !is_space(s[0]) {
        lemma_word_len_bound(s.drop_first());
    }
}

#[via_fn]
proof fn words_decreases(s: Seq<char>) {
    lemma_trim_start_shape(s);
    let t = trim_start(s);
    if t.len() > 0 {
        lemma_word_len_bound(t);
    }
}

/// The words of `s`: its maximal runs of non-white characters, in order.
pub open spec fn words(s: Seq<char>) -> Seq<Seq<char>>
    decreases s.len(),
    via words_decreases
{
    let t = trim_start(s);
    if t.len() == 0 {
        Seq::empty()
    } else {
        let e = word_len(t) as int;
        seq![t.take(e)] + words(t.skip(e))
    }
}

/// Words joined by single spaces.
pub open spec fn join(ws: Seq<Seq<char>>) -> Seq<char>
    decreases ws.len(),
{
    if ws.len() == 0 {
        Seq::empty()
    } else if ws.len() == 1 {
        ws[0]
    } else {
        join(ws.drop_last()).push(' ') + ws.last()
    }
}

/// Greedy packing of the words `ws[0..k]` into lines of at most `max`
/// characters: a word goes on the open line when it fits after a space, else
/// it opens a new line. Result: the finished lines and the open line, each as
/// its list of words.
pub open spec fn pack(ws: Seq<Seq<char>>, max: int, k: int) -> (Seq<Seq<Seq<char>>>, Seq<Seq<char>>)
    decreases k,
{
    if k <= 0 {
        (Seq::empty(), Seq::empty())
    } else {
        let (done, cur) = pack(ws, max, k - 1);
        let w = ws[k - 1];
        if cur.len() == 0 {
            (done, seq![w])
        } else if join(cur).len() + 1 + w.len() <= max {
            (done, cur.push(w))
        } else {
            (done.push(cur), seq![w])
        }
    }
}

/// The lines, as lists of words, that `s` wraps into at width `max`.
pub open spec fn line_words(s: Seq<char>, max: int) -> Seq<Seq<Seq<char>>> {
    let ws = words(s);
    let (done, cur) = pack(ws, max, ws.len() as int);
    if cur.len() == 0 {
        done
    } else {
        done.push(cur)
    }
}

/// The lines that `s` wraps into at width `max`.
pub open spec fn wrapped(s: Seq<char>, max: int) -> Seq<Seq<char>> {
    line_words(s, max).map_values(|l: Seq<Seq<char>>| join(l))
}

proof fn lemma_pack_last(ws: Seq<Seq<char>>, max: int, k: int)
    requires
        0 < k <= ws.len(),
    ensures
        pack(ws, max, k).1.len() > 0,
        pack(ws, max, k).1.last() == ws[k - 1],
{
}

proof fn lemma_words_from_space(s: Seq<char>, a: int, i: int)
    requires
        0 <= a <= i <= s.len(),
        forall|k: int| a <= k < i ==> is_space(#[trigger] s[k]),
    ensures
        words(s.subrange(a, s.len() as int)) == words(s.subrange(i, s.len() as int)),
{
    let x = s.subrange(a, s.len() as int);
    lemma_trim_start_skip(x, i - a);
    assert(x.subrange(i - a, x.len() as int) =~= s.subrange(i, s.len() as int));
    let y = s.subrange(i, s.len() as int);
    lemma_trim_start_shape(y);
    lemma_trim_start_shape(trim_start(y));
    if trim_start(y).len() > 0 {
        assert(trim_start(trim_start(y)) == trim_start(y));
    }
    assert(words(x) == words(y));
}

proof fn lemma_words_from_word(s: Seq<char>, i: int, j: int)
    requires
        0 <= i < j <= s.len(),
        forall|k: int| i <= k < j ==> !is_space(#[trigger] s[k]),
        j == s.len() || is_space(s[j]),
    ensures
        words(s.subrange(i, s.len() as int)) == seq![s.subrange(i, j)] + words(s.subrange(j, s.len() as int)),
{
    let x = s.subrange(i, s.len() as int);
    assert(trim_start(x) == x);
    lemma_word_len(x, j - i);
    assert(x.take(j - i) =~= s.subrange(i, j));
    assert(x.skip(j - i) =~= s.subrange(j, s.len() as int));
}

/// Wraps `s` into lines of at most `max_chars` characters, breaking between
/// words; a word longer than that stands on a line of its own. Runs of white
/// space become single spaces.
pub fn wrap_words(s: &str, max_chars: usize) -> (lines: Vec<String>)
    ensures
        lines@.map_values(|l: String| l@) == wrapped(s@, max_chars as int),
{
    let ghost max = max_chars as int;
    let n = s.unicode_len();
    let mut lines: Vec<String> = Vec::new();
    let mut cur = String::new();
    let ghost mut seen: Seq<Seq<char>> = Seq::empty();
    let mut i: usize = 0;
    proof {
        assert(s@.subrange(0, n as int) =~= s@);
        assert(seen + words(s@) =~= words(s@));
        assert(lines@.map_values(|l: String| l@) =~= pack(seen, max, 0).0.map_values(|l: Seq<Seq<char>>| join(l)));
    }
    while i < n
        invariant
            n == s@.len(),
            i <= n,
            max == max_chars,
            words(s@) == seen + words(s@.subrange(i as int, n as int)),
            lines@.map_values(|l: String| l@) == pack(seen, max, seen.len() as int).0.map_values(
                |l: Seq<Seq<char>>| join(l),
            ),
            cur@ == join(pack(seen, max, seen.len() as int).1),
            seen.len() == 0 <==> cur@.len() == 0,
        decreases n - i,
    {
        let a = i;
        while i < n && is_white(s.get_char(i))
            invariant
                n == s@.len(),
                a <= i <= n,
                forall|k: int| a <= k < i ==> is_space(#[trigger] s@[k]),
            decreases n - i,
        {
            i = i + 1;
        }
        proof {
            lemma_words_from_space(s@, a as int, i as int);
        }
        if i < n {
            let mut j = i;
            while j < n && !is_white(s.get_char(j))
                invariant
                    n == s@.len(),
                    i <= j <= n,
                    forall|k: int| i <= k < j ==> !is_space(#[trigger] s@[k]),
                decreases n - j,
            {
                j = j + 1;
            }
            proof {
                lemma_words_from_word(s@, i as int, j as int);
            }
            let word = s.substring_char(i, j);
            let ghost before = seen;
            let ghost old_lines = lines@;
            let ghost k = before.len() as int;
            proof {
                seen = seen.push(word@);
                assert(words(s@) =~= seen + words(s@.subrange(j as int, n as int)));
                assert(pack(seen, max, k).0 == pack(before, max, k).0) by {
                    assert forall|m: int| 0 <= m <= k implies #[trigger] pack(seen, max, m) == pack(before, max, m) by {
                        lemma_pack_prefix(before, seen, max, m);
                    }
                }
                assert(pack(seen, max, k).1 == pack(before, max, k).1) by {
                    lemma_pack_prefix(before, seen, max, k);
                }
                if k > 0 {
                    lemma_pack_last(seen, max, k);
                }
            }
            let wlen = j - i;
            let cur_len = cur.as_str().unicode_len();
            if cur_len == 0 {
                cur.append(word);
                proof {
                    assert(cur@ =~= join(seq![word@]));
                }
            } else if wlen < max_chars && cur_len < max_chars - wlen {
                proof {
                    reveal_strlit(" ");
                    let cw = pack(before, max, k).1;
                    assert(cw.push(word@).drop_last() =~= cw);
                }
                cur.append(" ");
                cur.append(word);
                proof {
                    let cw = pack(before, max, k).1;
                    assert(cur@ =~= join(cw.push(word@)));
                }
            } else {
                let ghost old_cur = cur@;
                let finished = cur;
                lines.push(finished);
                cur = String::new();
                cur.append(word);
                proof {
                    assert(cur@ =~= join(seq![word@]));
                    let cw = pack(before, max, k).1;
                    let dw = pack(before, max, k).0;
                    assert(old_cur == join(cw));
                    assert(pack(seen, max, k + 1).0 == dw.push(cw));
                    assert(lines@ == old_lines.push(lines@.last()));
                    assert(lines@.last()@ == old_cur);
                    lemma_texts_push(old_lines, lines@.last(), dw, cw);
                }
            }
            proof {
                assert(cur@.len() > 0);
                assert(lines@.map_values(|l: String| l@) =~= pack(seen, max, seen.len() as int).0.map_values(
                    |l: Seq<Seq<char>>| join(l),
                ));
            }
            i = j;
        }
    }
    proof {
        assert(s@.subrange(n as int, n as int) =~= Seq::<char>::empty());
        assert(seen =~= words(s@));
    }
    if cur.as_str().unicode_len() > 0 {
        let ghost old_lines = lines@;
        let ghost last = cur@;
        proof {
            lemma_pack_last(seen, max, seen.len() as int);
        }
        lines.push(cur);
        proof {
            let (done, cw) = pack(seen, max, seen.len() as int);
            assert(line_words(s@, max) == done.push(cw));
            assert(lines@ == old_lines.push(lines@.last()));
            lemma_texts_push(old_lines, lines@.last(), done, cw);
        }
    } else {
        proof {
            assert(lines@.map_values(|l: String| l@) =~= wrapped(s@, max));
        }
    }
    lines
}

proof fn lemma_pack_prefix(a: Seq<Seq<char>>, b: Seq<Seq<char>>, max: int, m: int)
    requires
        0 <= m <= a.len() <= b.len(),
        forall|x: int| 0 <= x < a.len() ==> a[x] == b[x],
    ensures
        pack(b, max, m) == pack(a, max, m),
    decreases m,
{
    if m > 0 {
        lemma_pack_prefix(a, b, max, m - 1);
    }
}

proof fn lemma_texts_push(texts: Seq<String>, t: String, lines: Seq<Seq<Seq<char>>>, l: Seq<Seq<char>>)
    requires
        texts.map_values(|x: String| x@) == lines.map_values(|w: Seq<Seq<char>>| join(w)),
        t@ == join(l),
    ensures
        texts.push(t).map_values(|x: String| x@) == lines.push(l).map_values(|w: Seq<Seq<char>>| join(w)),
{
    assert(texts.push(t).map_values(|x: String| x@) =~= texts.map_values(|x: String| x@).push(t@));
    assert(lines.push(l).map_values(|w: Seq<Seq<char>>| join(w)) =~= lines.map_values(|w: Seq<Seq<char>>| join(w)).push(
        join(l),
    ));
}

proof fn lemma_join_push(ws: Seq<Seq<char>>, w: Seq<char>)
    requires
        ws.len() > 0,
    ensures
        join(ws.push(w)).len() == join(ws).len() + 1 + w.len(),
        ws.push(w)[0] == ws[0],
{
    assert(ws.push(w).drop_last() =~= ws);
}

/// What every packing step keeps: no word lost or reordered, every line
/// fits or holds a single word, and no line could have taken the first word of
/// the next.
proof fn lemma_pack_sound(ws: Seq<Seq<char>>, max: int, k: int)
    requires
        0 <= k <= ws.len(),
    ensures
        ({
            let (done, cur) = pack(ws, max, k);
            &&& done.flatten() + cur == ws.take(k)
            &&& forall|x: int|
                0 <= x < done.len() ==> (#[trigger] done[x]).len() > 0 && (join(done[x]).len() <= max || done[x].len() == 1)
            &&& k > 0 ==> cur.len() > 0 && (join(cur).len() <= max || cur.len() == 1)
            &&& k == 0 ==> cur.len() == 0 && done.len() == 0
            &&& forall|x: int| 0 <= x < done.len() - 1 ==> join(#[trigger] done[x]).len() + 1 + done[x + 1][0].len() > max
            &&& done.len() > 0 && cur.len() > 0 ==> join(done.last()).len() + 1 + cur[0].len() > max
        }),
    decreases k,
{
    broadcast use Seq::lemma_flatten_push;

    if k > 0 {
        lemma_pack_sound(ws, max, k - 1);
        let (done, cur) = pack(ws, max, k - 1);
        let w = ws[k - 1];
        assert(ws.take(k) =~= ws.take(k - 1).push(w));
        if cur.len() == 0 {
            assert(done.flatten() + seq![w] =~= (done.flatten() + cur).push(w));
        } else if join(cur).len() + 1 + w.len() <= max {
            lemma_join_push(cur, w);
            assert(done.flatten() + cur.push(w) =~= (done.flatten() + cur).push(w));
        } else {
            let done2 = done.push(cur);
            assert(done2.flatten() + seq![w] =~= (done.flatten() + cur).push(w));
            assert forall|x: int| 0 <= x < done2.len() - 1 implies join(#[trigger] done2[x]).len() + 1 + done2[x
                + 1][0].len() > max by {
                if x == done2.len() - 2 {
                    assert(done2[x] == done.last());
                    assert(done2[x + 1] == cur);
                } else {
                    assert(done2[x] == done[x] && done2[x + 1] == done[x + 1]);
                }
            }
        }
    }
}

/// Wrapping keeps the text: the lines, read word by word in order, are
/// exactly the words of `s`.
pub proof fn law_wrap_keeps_words(s: Seq<char>, max: int)
    ensures
        line_words(s, max).flatten() == words(s),
{
    broadcast use Seq::lemma_flatten_push;

    let ws = words(s);
    lemma_pack_sound(ws, max, ws.len() as int);
    assert(ws.take(ws.len() as int) =~= ws);
    let (done, cur) = pack(ws, max, ws.len() as int);
    if cur.len() == 0 {
        assert(done.flatten() + cur =~= done.flatten());
    }
}

/// Every wrapped line has at least one word and is at most `max` characters
/// long, unless it is a single word that alone is longer.
pub proof fn law_wrap_fits(s: Seq<char>, max: int)
    ensures
        forall|x: int|
            0 <= x < line_words(s, max).len() ==> (#[trigger] line_words(s, max)[x]).len() > 0 && (join(
                line_words(s, max)[x],
            ).len() <= max || line_words(s, max)[x].len() == 1),
{
    let ws = words(s);
    lemma_pack_sound(ws, max, ws.len() as int);
}

/// Wrapping is greedy: the first word of each line would not have fitted,
/// after a space, on the line before it.
pub proof fn law_wrap_greedy(s: Seq<char>, max: int)
    ensures
        forall|x: int|
            0 <= x < line_words(s, max).len() - 1 ==> join(#[trigger] line_words(s, max)[x]).len() + 1 + line_words(
                s,
                max,
            )[x + 1][0].len() > max,
{
    let ws = words(s);
    lemma_pack_sound(ws, max, ws.len() as int);
    let (done, cur) = pack(ws, max, ws.len() as int);
    let lw = line_words(s, max);
    assert forall|x: int| 0 <= x < lw.len() - 1 implies join(#[trigger] lw[x]).len() + 1 + lw[x + 1][0].len() > max by {
        if cur.len() > 0 && x == lw.len() - 2 {
            assert(lw[x] == done.last());
            assert(lw[x + 1] == cur);
        } else {
            assert(lw[x] == done[x] && lw[x + 1] == done[x + 1]);
        }
    }
}

proof fn lemma_word_run(s: Seq<char>)
    ensures
        forall|k: int| 0 <= k < word_len(s) ==> !is_space(#[trigger] s[k]),
    decreases s.len(),
{
    lemma_word_len_bound(s);
    if s.len() > 0 && !is_space(s[0]) {
        lemma_word_run(s.drop_first());
        assert forall|k: int| 0 <= k < word_len(s) implies !is_space(#[trigger] s[k]) by {
            if k > 0 {
                assert(s[k] == s.drop_first()[k - 1]);
            }
        }
    }
}

/// Every word is a non-empty run of characters that are not white space.
pub proof fn law_words_are_runs(s: Seq<char>)
    ensures
        forall|x: int|
            0 <= x < words(s).len() ==> (#[trigger] words(s)[x]).len() > 0 && forall|k: int|
                0 <= k < words(s)[x].len() ==> !is_space(#[trigger] words(s)[x][k]),
    decreases s.len(),
{
    lemma_trim_start_shape(s);
    let t = trim_start(s);
    if t.len() > 0 {
        let e = word_len(t) as int;
        lemma_word_len_bound(t);
        lemma_word_run(t);
        law_words_are_runs(t.skip(e));
        let ws = words(s);
        assert(ws == seq![t.take(e)] + words(t.skip(e)));
        assert forall|x: int| 0 <= x < ws.len() implies (#[trigger] ws[x]).len() > 0 && forall|k: int|
            0 <= k < ws[x].len() ==> !is_space(#[trigger] ws[x][k]) by {
            if x > 0 {
                assert(ws[x] == words(t.skip(e))[x - 1]);
            }
        }
    }
}

} // verus!
