//! Cutting program text into lines and words.

use vstd::prelude::*;
use crate::text;
use crate::text::{is_whitespace, to_lower};

verus! {

/// The place of the first `c`; the length if there is none.
pub open spec fn find(s: Seq<char>, c: char) -> int
    decreases s.len(),
{
    if s.len() == 0 || s[0] == c {
        0
    } else {
        1 + find(s.drop_first(), c)
    }
}

/// The text without the white space in front.
pub open spec fn trim_start(s: Seq<char>) -> Seq<char>
    decreases s.len(),
{
    if s.len() > 0 && text::is_space(s[0]) {
        trim_start(s.drop_first())
    } else {
        s
    }
}

/// The text without the white space behind.
pub open spec fn trim_end(s: Seq<char>) -> Seq<char>
    decreases s.len(),
{
    if s.len() > 0 && text::is_space(s.last()) {
        trim_end(s.drop_last())
    } else {
        s
    }
}

/// What counts of a line: what stands before the comment, without the white space around it.
pub open spec fn code_of(line: Seq<char>) -> Seq<char> {
    trim_end(trim_start(line.take(find(line, '#'))))
}

/// True of what separates words.
pub open spec fn is_gap(c: char) -> bool {
    text::is_space(c) || c == '(' || c == ')' || c == ','
}

/// True of the braces, which are words of their own.
pub open spec fn is_brace(c: char) -> bool {
    c == '{' || c == '}'
}

/// How many characters the word in front has; zero if there is none, or if it is a brace.
pub open spec fn run(s: Seq<char>) -> int
    decreases s.len(),
{
    if s.len() == 0 || is_gap(s[0]) || is_brace(s[0]) {
        0
    } else {
        1 + run(s.drop_first())
    }
}

/// The words, in small letters.
pub open spec fn words_of(s: Seq<char>) -> Seq<Seq<char>>
    decreases s.len(),
{
    if s.len() == 0 {
        Seq::empty()
    } else if is_gap(s[0]) {
        words_of(s.drop_first())
    } else if is_brace(s[0]) {
        seq![seq![s[0]]] + words_of(s.drop_first())
    } else {
        proof {
            lemma_run(s.drop_first());
        }
        seq![text::lowercase(s.take(1 + run(s.drop_first())))] + words_of(
            s.skip(1 + run(s.drop_first())),
        )
    }
}

/// The places that a search can give.
pub proof fn lemma_find(s: Seq<char>, c: char)
    ensures
        0 <= find(s, c) <= s.len(),
        find(s, c) < s.len() ==> s[find(s, c)] == c,
        forall|i: int| 0 <= i < find(s, c) ==> s[i] != c,
    decreases s.len(),
{
    if s.len() > 0 && s[0] != c {
        lemma_find(s.drop_first(), c);
        assert forall|i: int| 0 <= i < find(s, c) implies s[i] != c by {
            if i > 0 {
                assert(s.drop_first()[i - 1] != c);
            }
        }
    }
}

/// The place that a search gives is the only one of its kind.
pub proof fn lemma_find_is(s: Seq<char>, c: char, k: int)
    requires
        0 <= k <= s.len(),
        k < s.len() ==> s[k] == c,
        forall|i: int| 0 <= i < k ==> s[i] != c,
    ensures
        find(s, c) == k,
{
    lemma_find(s, c);
    if find(s, c) < k {
        assert(s[find(s, c)] != c);
    }
}

/// A word lies within the text.
pub proof fn lemma_run(s: Seq<char>)
    ensures
        0 <= run(s) <= s.len(),
        forall|i: int| 0 <= i < run(s) ==> !is_gap(#[trigger] s[i]) && !is_brace(s[i]),
        run(s) < s.len() ==> is_gap(s[run(s)]) || is_brace(s[run(s)]),
    decreases s.len(),
{
    if s.len() > 0 && !is_gap(s[0]) && !is_brace(s[0]) {
        lemma_run(s.drop_first());
        assert forall|i: int| 0 <= i < run(s) implies !is_gap(#[trigger] s[i]) && !is_brace(
            s[i],
        ) by {
            if i > 0 {
                assert(s.drop_first()[i - 1] == s[i]);
            }
        }
    }
}

/// The place of the first `c` from `from` on; the length if there is none.
pub fn find_from(chars: &Vec<char>, from: usize, c: char) -> (at: usize)
    requires
        from <= chars@.len(),
    ensures
        at == from + find(chars@.skip(from as int), c),
        from <= at <= chars@.len(),
{
    let mut at: usize = from;
    while at < chars.len() && chars[at] != c
        invariant
            from <= at <= chars@.len(),
            from + find(chars@.skip(from as int), c) == at + find(chars@.skip(at as int), c),
        decreases chars@.len() - at,
    {
        assert(chars@.skip(at as int).drop_first() =~= chars@.skip(at + 1));
        at += 1;
    }
    at
}

/// What counts of a line: where it begins and ends.
pub fn code_range(chars: &Vec<char>, from: usize, to: usize) -> (r: (usize, usize))
    requires
        from <= to <= chars@.len(),
    ensures
        from <= r.0 <= r.1 <= to,
        chars@.subrange(r.0 as int, r.1 as int) == code_of(chars@.subrange(from as int, to as int)),
{
    let ghost line = chars@.subrange(from as int, to as int);
    let mut hi: usize = from;
    assert(line.skip(0) =~= line);
    while hi < to && chars[hi] != '#'
        invariant
            from <= hi <= to <= chars@.len(),
            line == chars@.subrange(from as int, to as int),
            find(line, '#') == (hi - from) + find(line.skip(hi - from), '#'),
        decreases to - hi,
    {
        assert(line.skip(hi - from).drop_first() =~= line.skip(hi + 1 - from));
        hi += 1;
    }
    assert(line.take(hi - from) =~= chars@.subrange(from as int, hi as int));
    let ghost kept = chars@.subrange(from as int, hi as int);
    let mut lo: usize = from;
    while lo < hi && is_whitespace(chars[lo])
        invariant
            from <= lo <= hi <= to <= chars@.len(),
            trim_start(kept) == trim_start(chars@.subrange(lo as int, hi as int)),
        decreases hi - lo,
    {
        assert(chars@.subrange(lo as int, hi as int).drop_first() =~= chars@.subrange(
            lo + 1,
            hi as int,
        ));
        lo += 1;
    }
    let ghost begun = chars@.subrange(lo as int, hi as int);
    assert(begun == trim_start(kept));
    while lo < hi && is_whitespace(chars[hi - 1])
        invariant
            from <= lo <= hi <= to <= chars@.len(),
            trim_end(begun) == trim_end(chars@.subrange(lo as int, hi as int)),
        decreases hi - lo,
    {
        assert(chars@.subrange(lo as int, hi as int).drop_last() =~= chars@.subrange(
            lo as int,
            hi - 1,
        ));
        hi -= 1;
    }
    (lo, hi)
}

/// The texts of a list of words.
pub open spec fn texts(words: Seq<String>) -> Seq<Seq<char>> {
    Seq::new(words.len(), |i: int| words[i]@)
}

/// True of what separates words.
fn is_separator(c: char) -> (b: bool)
    ensures
        b == is_gap(c),
{
    is_whitespace(c) || c == '(' || c == ')' || c == ','
}

/// The words of a stretch of text.
pub fn split_words(chars: &Vec<char>, from: usize, to: usize) -> (words: Vec<String>)
    requires
        from <= to <= chars@.len(),
    ensures
        texts(words@) == words_of(chars@.subrange(from as int, to as int)),
{
    let ghost s = chars@.subrange(from as int, to as int);
    let mut words: Vec<String> = Vec::new();
    let mut i: usize = from;
    assert(texts(words@) + words_of(s) =~= words_of(s));
    while i < to
        invariant
            from <= i <= to <= chars@.len(),
            s == chars@.subrange(from as int, to as int),
            texts(words@) + words_of(chars@.subrange(i as int, to as int)) == words_of(s),
        decreases to - i,
    {
        let ghost rest = chars@.subrange(i as int, to as int);
        let ghost before = texts(words@);
        let c = chars[i];
        assert(rest.drop_first() =~= chars@.subrange(i + 1, to as int));
        if is_separator(c) {
            i += 1;
        } else {
            let mut word = String::new();
            word.push(to_lower(c));
            let mut j: usize = i + 1;
            if c != '{' && c != '}' {
                while j < to && !is_separator(chars[j]) && chars[j] != '{' && chars[j] != '}'
                    invariant
                        from <= i < j <= to <= chars@.len(),
                        rest == chars@.subrange(i as int, to as int),
                        word@ == text::lowercase(rest.take(j - i)),
                        run(rest.drop_first()) == (j - i - 1) + run(
                            chars@.subrange(j as int, to as int),
                        ),
                    decreases to - j,
                {
                    assert(chars@.subrange(j as int, to as int).drop_first() =~= chars@.subrange(
                        j + 1,
                        to as int,
                    ));
                    word.push(to_lower(chars[j]));
                    j += 1;
                    assert(word@ =~= text::lowercase(rest.take(j - i)));
                }
                assert(rest.skip(j - i) =~= chars@.subrange(j as int, to as int));
            }
            assert(words_of(rest) =~= seq![word@] + words_of(chars@.subrange(j as int, to as int)));
            let ghost text_added = word@;
            words.push(word);
            assert(texts(words@) =~= before + seq![text_added]);
            assert(texts(words@) + words_of(chars@.subrange(j as int, to as int)) =~= before
                + words_of(rest));
            i = j;
        }
    }
    assert(texts(words@) =~= texts(words@) + words_of(chars@.subrange(i as int, to as int)));
    words
}

/// True if two characters count as the same: both separate words, or they are one letter, small
/// or capital.
pub open spec fn alike(c: char, d: char) -> bool {
    (is_gap(c) && is_gap(d)) || text::lowered(c) == text::lowered(d)
}

/// Words of texts that are alike are equally long.
proof fn lemma_run_alike(a: Seq<char>, b: Seq<char>)
    requires
        a.len() == b.len(),
        forall|i: int| 0 <= i < a.len() ==> alike(#[trigger] a[i], b[i]),
    ensures
        run(a) == run(b),
    decreases a.len(),
{
    if a.len() > 0 {
        assert(alike(a[0], b[0]));
        assert forall|i: int| 0 <= i < a.drop_first().len() implies alike(
            #[trigger] a.drop_first()[i],
            b.drop_first()[i],
        ) by {
            assert(alike(a[i + 1], b[i + 1]));
        }
        lemma_run_alike(a.drop_first(), b.drop_first());
    }
}

/// Capitals do not matter, and parentheses, commas and white space are one: texts that differ in
/// nothing else have the same words.
pub proof fn law_words_ignore_case_and_punctuation(a: Seq<char>, b: Seq<char>)
    requires
        a.len() == b.len(),
        forall|i: int| 0 <= i < a.len() ==> alike(#[trigger] a[i], b[i]),
    ensures
        words_of(a) == words_of(b),
    decreases a.len(),
{
    if a.len() > 0 {
        let (a1, b1) = (a.drop_first(), b.drop_first());
        assert(alike(a[0], b[0]));
        assert forall|i: int| 0 <= i < a1.len() implies alike(#[trigger] a1[i], b1[i]) by {
            assert(alike(a[i + 1], b[i + 1]));
        }
        if is_gap(a[0]) || is_brace(a[0]) {
            law_words_ignore_case_and_punctuation(a1, b1);
        } else {
            lemma_run_alike(a1, b1);
            lemma_run(a1);
            lemma_run(b1);
            let n = 1 + run(a1);
            assert(text::lowercase(a.take(n)) =~= text::lowercase(b.take(n))) by {
                assert forall|i: int| 0 <= i < n implies text::lowered(a[i]) == text::lowered(
                    b[i],
                ) by {
                    assert(alike(a[i], b[i]));
                    if i > 0 {
                        assert(!is_gap(a1[i - 1]));
                    }
                }
            }
            assert forall|i: int| 0 <= i < a.skip(n).len() implies alike(
                #[trigger] a.skip(n)[i],
                b.skip(n)[i],
            ) by {
                assert(alike(a[i + n], b[i + n]));
            }
            law_words_ignore_case_and_punctuation(a.skip(n), b.skip(n));
        }
    }
}

/// A comment does not count, whatever it says.
pub proof fn law_comments_do_not_count(code: Seq<char>, comment: Seq<char>)
    ensures
        code_of(code + seq!['#'] + comment) == code_of(code),
{
    let line = code + seq!['#'] + comment;
    lemma_find(line, '#');
    lemma_find(code, '#');
    let k = find(code, '#');
    if k == code.len() {
        assert(line[k] == '#');
        assert forall|i: int| 0 <= i < k implies line[i] != '#' by {
            assert(code[i] == line[i]);
        }
    } else {
        assert(line[k] == code[k]);
        assert forall|i: int| 0 <= i < k implies line[i] != '#' by {
            assert(code[i] == line[i]);
        }
    }
    assert(find(line, '#') == k);
    assert(line.take(k) =~= code.take(k));
}

/// True of white space and nothing else.
pub open spec fn all_space(s: Seq<char>) -> bool {
    forall|i: int| 0 <= i < s.len() ==> text::is_space(#[trigger] s[i])
}

/// White space in front is trimmed off.
proof fn lemma_trim_start_padded(pad: Seq<char>, s: Seq<char>)
    requires
        all_space(pad),
    ensures
        trim_start(pad + s) == trim_start(s),
    decreases pad.len(),
{
    if pad.len() == 0 {
        assert(pad + s =~= s);
    } else {
        assert((pad + s).drop_first() =~= pad.drop_first() + s);
        assert(text::is_space((pad + s)[0]));
        lemma_trim_start_padded(pad.drop_first(), s);
    }
}

/// White space behind is trimmed off.
proof fn lemma_trim_end_padded(s: Seq<char>, pad: Seq<char>)
    requires
        all_space(pad),
    ensures
        trim_end(s + pad) == trim_end(s),
    decreases pad.len(),
{
    if pad.len() == 0 {
        assert(s + pad =~= s);
    } else {
        assert((s + pad).drop_last() =~= s + pad.drop_last());
        assert(text::is_space((s + pad).last())) by {
            assert((s + pad).last() == pad[pad.len() - 1]);
        }
        lemma_trim_end_padded(s, pad.drop_last());
    }
}

/// White space behind stays while the white space in front is trimmed off, unless there is nothing
/// else.
proof fn lemma_trim_start_before(s: Seq<char>, pad: Seq<char>)
    requires
        all_space(pad),
    ensures
        trim_start(s + pad) == if trim_start(s).len() > 0 {
            trim_start(s) + pad
        } else {
            Seq::empty()
        },
    decreases s.len(),
{
    if s.len() == 0 {
        assert(s + pad =~= pad + Seq::<char>::empty());
        lemma_trim_start_padded(pad, Seq::empty());
    } else if text::is_space(s[0]) {
        assert((s + pad).drop_first() =~= s.drop_first() + pad);
        assert((s + pad)[0] == s[0]);
        lemma_trim_start_before(s.drop_first(), pad);
    } else {
        assert((s + pad)[0] == s[0]);
    }
}

/// White space around a line does not count.
pub proof fn law_padding_does_not_count(front: Seq<char>, line: Seq<char>, back: Seq<char>)
    requires
        all_space(front),
        all_space(back),
    ensures
        code_of(front + line + back) == code_of(line),
{
    let padded = front + line + back;
    let k = find(line, '#');
    lemma_find(line, '#');
    assert forall|i: int| 0 <= i < front.len() + k implies padded[i] != '#' by {
        if i < front.len() {
            assert(text::is_space(front[i]));
        } else {
            assert(padded[i] == line[i - front.len()]);
        }
    }
    let kept = line.take(k);
    if k < line.len() {
        assert(padded[front.len() + k] == line[k]);
        lemma_find_is(padded, '#', front.len() + k);
        assert(padded.take(front.len() + k) =~= front + kept);
        lemma_trim_start_padded(front, kept);
    } else {
        assert forall|i: int| 0 <= i < padded.len() implies padded[i] != '#' by {
            if i >= front.len() + k {
                assert(text::is_space(back[i - front.len() - k]));
            }
        }
        lemma_find_is(padded, '#', padded.len() as int);
        assert(padded.take(padded.len() as int) =~= front + (kept + back));
        lemma_trim_start_padded(front, kept + back);
        lemma_trim_start_before(kept, back);
        lemma_trim_end_padded(trim_start(kept), back);
    }
}

/// A separator behind a word does not belong to it.
proof fn lemma_run_before_gap(s: Seq<char>, c: char)
    requires
        is_gap(c),
    ensures
        run(s.push(c)) == run(s),
    decreases s.len(),
{
    if s.len() > 0 {
        assert(s.push(c)[0] == s[0]);
        assert(s.push(c).drop_first() =~= s.drop_first().push(c));
        lemma_run_before_gap(s.drop_first(), c);
    }
}

/// A separator behind adds no word.
proof fn lemma_words_before_gap(s: Seq<char>, c: char)
    requires
        is_gap(c),
    ensures
        words_of(s.push(c)) == words_of(s),
    decreases s.len(),
{
    let t = s.push(c);
    if s.len() == 0 {
        assert(t.drop_first() =~= s);
        assert(t[0] == c);
    } else {
        assert(t[0] == s[0]);
        assert(t.drop_first() =~= s.drop_first().push(c));
        if is_gap(s[0]) || is_brace(s[0]) {
            lemma_words_before_gap(s.drop_first(), c);
        } else {
            lemma_run(s.drop_first());
            lemma_run_before_gap(s.drop_first(), c);
            let n = 1 + run(s.drop_first());
            assert(t.take(n) =~= s.take(n));
            assert(t.skip(n) =~= s.skip(n).push(c));
            lemma_words_before_gap(s.skip(n), c);
        }
    }
}

/// The words of a text do not depend on the white space in front.
proof fn lemma_words_trim_start(s: Seq<char>)
    ensures
        words_of(trim_start(s)) == words_of(s),
    decreases s.len(),
{
    if s.len() > 0 && text::is_space(s[0]) {
        lemma_words_trim_start(s.drop_first());
    }
}

/// The words of a text do not depend on the white space behind.
proof fn lemma_words_trim_end(s: Seq<char>)
    ensures
        words_of(trim_end(s)) == words_of(s),
    decreases s.len(),
{
    if s.len() > 0 && text::is_space(s.last()) {
        lemma_words_trim_end(s.drop_last());
        lemma_words_before_gap(s.drop_last(), s.last());
        assert(s.drop_last().push(s.last()) =~= s);
    }
}

/// The words of what counts of a line are those of all that stands before the comment.
pub proof fn lemma_words_of_code(line: Seq<char>)
    ensures
        words_of(code_of(line)) == words_of(line.take(find(line, '#'))),
{
    let kept = line.take(find(line, '#'));
    lemma_words_trim_start(kept);
    lemma_words_trim_end(trim_start(kept));
}

/// Words are separated by white space, parentheses and commas.
pub proof fn law_separators(c: char)
    ensures
        is_gap(c) <==> text::is_space(c) || c == '(' || c == ')' || c == ',',
        is_brace(c) <==> c == '{' || c == '}',
{
}

/// A word ends where a separator or a brace comes.
proof fn lemma_run_ends(a: Seq<char>, c: char, b: Seq<char>)
    requires
        is_gap(c) || is_brace(c),
    ensures
        run(a + seq![c] + b) == run(a),
    decreases a.len(),
{
    let s = a + seq![c] + b;
    if a.len() == 0 {
        assert(s[0] == c);
    } else {
        assert(s[0] == a[0]);
        assert(s.drop_first() =~= a.drop_first() + seq![c] + b);
        lemma_run_ends(a.drop_first(), c, b);
    }
}

/// The words of a text with a separator or a brace in it are those of what stands in front, the
/// brace if it is one, and those of what stands behind.
pub proof fn law_texts_are_split_into_words(a: Seq<char>, c: char, b: Seq<char>)
    requires
        is_gap(c) || is_brace(c),
    ensures
        is_gap(c) ==> words_of(a + seq![c] + b) == words_of(a) + words_of(b),
        is_brace(c) ==> words_of(a + seq![c] + b) == words_of(a) + seq![seq![c]] + words_of(b),
    decreases a.len(),
{
    let s = a + seq![c] + b;
    let middle = if is_brace(c) {
        seq![seq![c]]
    } else {
        Seq::<Seq<char>>::empty()
    };
    assert(words_of(s) =~= words_of(a) + middle + words_of(b)) by {
        if a.len() == 0 {
            assert(s[0] == c);
            assert(s.drop_first() =~= b);
        } else {
            assert(s[0] == a[0]);
            assert(s.drop_first() =~= a.drop_first() + seq![c] + b);
            if is_gap(a[0]) || is_brace(a[0]) {
                law_texts_are_split_into_words(a.drop_first(), c, b);
            } else {
                lemma_run_ends(a.drop_first(), c, b);
                lemma_run(a.drop_first());
                let n = 1 + run(a.drop_first());
                assert(s.take(n) =~= a.take(n));
                assert(s.skip(n) =~= a.skip(n) + seq![c] + b);
                law_texts_are_split_into_words(a.skip(n), c, b);
            }
        }
    }
    assert(is_gap(c) ==> words_of(s) =~= words_of(a) + words_of(b));
}

/// A text without separators and braces is one word, in small letters; an empty one is none.
pub proof fn law_unbroken_texts_are_words(s: Seq<char>)
    requires
        forall|i: int| 0 <= i < s.len() ==> !is_gap(#[trigger] s[i]) && !is_brace(s[i]),
    ensures
        s.len() > 0 ==> words_of(s) == seq![text::lowercase(s)],
        s.len() == 0 ==> words_of(s).len() == 0,
{
    if s.len() > 0 {
        let rest = s.drop_first();
        lemma_run(rest);
        assert(run(rest) == rest.len()) by {
            if run(rest) < rest.len() {
                assert(rest[run(rest)] == s[run(rest) + 1]);
            }
        }
        assert(s.take(s.len() as int) =~= s);
        assert(s.skip(s.len() as int) =~= Seq::<char>::empty());
        assert(words_of(Seq::<char>::empty()) =~= Seq::<Seq<char>>::empty());
        assert(!is_gap(s[0]) && !is_brace(s[0]));
        assert(words_of(s) =~= seq![text::lowercase(s.take(s.len() as int))] + words_of(
            s.skip(s.len() as int),
        ));
        assert(words_of(s) =~= seq![text::lowercase(s)]);
    }
}

/// A text without comment, and without white space at its ends, counts as it is.
pub proof fn law_bare_code_counts_as_it_is(s: Seq<char>)
    requires
        forall|i: int| 0 <= i < s.len() ==> s[i] != '#',
        s.len() > 0 ==> !text::is_space(s[0]) && !text::is_space(s.last()),
    ensures
        code_of(s) == s,
{
    lemma_find_is(s, '#', s.len() as int);
    assert(s.take(s.len() as int) =~= s);
}

} // verus!
