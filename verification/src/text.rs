//! Text as a sequence of characters.

use vstd::prelude::*;

verus! {

/// The characters of `text`, in order.
pub fn chars_of(text: &str) -> (chars: Vec<char>)
    ensures
        chars@ == text@,
{
    let mut chars: Vec<char> = Vec::new();
    for c in it: text.chars()
        invariant
            chars@.len() == it.index(),
            it.seq() == text@,
            forall|j: int| 0 <= j < chars@.len() ==> chars@[j] == it.seq()[j],
    {
        chars.push(c);
    }
    assert(chars@ =~= text@);
    chars
}

/// The first position at or after `from` where `sep` stands in `s`, or the
/// length of `s` where it stands nowhere from there on.
pub open spec fn find_from(s: Seq<char>, sep: char, from: int) -> int
    decreases s.len() - from,
{
    if from < 0 || from >= s.len() {
        s.len() as int
    } else if s[from] == sep {
        from
    } else {
        find_from(s, sep, from + 1)
    }
}

/// The pieces of `s` from position `from` on that lie between one `sep` and
/// the next. Two separators in a row enclose an empty piece, and a
/// separator at the end is followed by one.
pub open spec fn split_from(s: Seq<char>, sep: char, from: int) -> Seq<Seq<char>>
    decreases s.len() - from,
{
    let next = find_from(s, sep, from);
    if from < 0 || next >= s.len() || next < from {
        seq![s.subrange(from, s.len() as int)]
    } else {
        seq![s.subrange(from, next)] + split_from(s, sep, next + 1)
    }
}

/// The pieces of `s` between separators: one more than `sep` occurs.
pub open spec fn split_on(s: Seq<char>, sep: char) -> Seq<Seq<char>> {
    split_from(s, sep, 0)
}

/// Cuts `text` at every `sep`.
pub fn split_chars(text: &Vec<char>, sep: char) -> (pieces: Vec<Vec<char>>)
    ensures
        pieces@.len() == split_on(text@, sep).len(),
        forall|i: int| 0 <= i < pieces@.len() ==> (#[trigger] pieces@[i])@ == split_on(text@, sep)[i],
{
    let n: usize = text.len();
    let ghost s = text@;
    let mut pieces: Vec<Vec<char>> = Vec::new();
    let mut piece: Vec<char> = Vec::new();
    let mut start: usize = 0;
    let mut i: usize = 0;
    let ghost mut done: Seq<Seq<char>> = Seq::empty();
    assert(done + split_from(s, sep, 0) =~= split_on(s, sep));
    assert(s.subrange(0, 0) =~= Seq::<char>::empty());
    while i < n
        invariant
            n == s.len(),
            s == text@,
            start <= i <= n,
            piece@ == s.subrange(start as int, i as int),
            find_from(s, sep, start as int) == find_from(s, sep, i as int),
            done + split_from(s, sep, start as int) == split_on(s, sep),
            pieces@.len() == done.len(),
            forall|j: int| 0 <= j < pieces@.len() ==> (#[trigger] pieces@[j])@ == done[j],
        decreases n - i,
    {
        let c: char = text[i];
        if c == sep {
            proof {
                let rest = split_from(s, sep, i + 1);
                assert(split_from(s, sep, start as int) == seq![piece@] + rest);
                assert(done.push(piece@) + rest =~= done + (seq![piece@] + rest));
                done = done.push(piece@);
                assert(s.subrange(i + 1, i + 1) =~= Seq::<char>::empty());
            }
            pieces.push(piece);
            piece = Vec::new();
            start = i + 1;
        } else {
            proof {
                assert(s.subrange(start as int, i + 1) =~= piece@.push(c));
            }
            piece.push(c);
        }
        i = i + 1;
    }
    proof {
        assert(find_from(s, sep, n as int) == n);
        assert(split_from(s, sep, start as int) == seq![piece@]);
        assert(done.push(piece@) =~= done + seq![piece@]);
        done = done.push(piece@);
    }
    pieces.push(piece);
    pieces
}

/// Whether `c` separates words: a space, a tab, a line feed, a carriage
/// return or a form feed.
pub open spec fn is_blank(c: char) -> bool {
    c == ' ' || c == '\t' || c == '\n' || c == '\r' || c == '\x0C'
}

/// Whether `c` ends a line: a line feed or a carriage return.
pub open spec fn is_break(c: char) -> bool {
    c == '\n' || c == '\r'
}

/// How many blanks stand in `s` from `from` on, without a break.
pub open spec fn blank_run(s: Seq<char>, from: int) -> nat
    decreases s.len() - from,
{
    if 0 <= from < s.len() && is_blank(s[from]) {
        1 + blank_run(s, from + 1)
    } else {
        0
    }
}

/// How many blanks other than line ends stand in `s` from `from` on.
pub open spec fn gap_run(s: Seq<char>, from: int) -> nat
    decreases s.len() - from,
{
    if 0 <= from < s.len() && is_blank(s[from]) && !is_break(s[from]) {
        1 + gap_run(s, from + 1)
    } else {
        0
    }
}

/// How many characters other than blanks stand in `s` from `from` on.
pub open spec fn word_run(s: Seq<char>, from: int) -> nat
    decreases s.len() - from,
{
    if 0 <= from < s.len() && !is_blank(s[from]) {
        1 + word_run(s, from + 1)
    } else {
        0
    }
}

/// A word ends within the text.
pub proof fn lemma_word_run_bound(s: Seq<char>, from: int)
    requires
        0 <= from <= s.len(),
    ensures
        from + word_run(s, from) <= s.len(),
    decreases s.len() - from,
{
    if from < s.len() && !is_blank(s[from]) {
        lemma_word_run_bound(s, from + 1);
    }
}

/// The word that begins in `s` at `from`: the characters up to the next
/// blank.
pub open spec fn word_at(s: Seq<char>, from: int) -> Seq<char> {
    s.subrange(from, from + word_run(s, from))
}

/// Whether `c` separates words.
pub fn is_blank_char(c: char) -> (yes: bool)
    ensures
        yes == is_blank(c),
{
    c == ' ' || c == '\t' || c == '\n' || c == '\r' || c == '\x0C'
}

/// Whether `c` ends a line.
pub fn is_break_char(c: char) -> (yes: bool)
    ensures
        yes == is_break(c),
{
    c == '\n' || c == '\r'
}

/// Where the blanks that begin at `from` end.
pub fn skip_blanks(text: &Vec<char>, from: usize) -> (end: usize)
    requires
        from <= text@.len(),
    ensures
        end == from + blank_run(text@, from as int),
        end <= text@.len(),
{
    let mut i: usize = from;
    while i < text.len() && is_blank_char(text[i])
        invariant
            from <= i <= text@.len(),
            blank_run(text@, from as int) == (i - from) + blank_run(text@, i as int),
        decreases text@.len() - i,
    {
        i = i + 1;
    }
    i
}

/// Where the blanks other than line ends that begin at `from` end.
pub fn skip_gap(text: &Vec<char>, from: usize) -> (end: usize)
    requires
        from <= text@.len(),
    ensures
        end == from + gap_run(text@, from as int),
        end <= text@.len(),
{
    let mut i: usize = from;
    while i < text.len() && is_blank_char(text[i]) && !is_break_char(text[i])
        invariant
            from <= i <= text@.len(),
            gap_run(text@, from as int) == (i - from) + gap_run(text@, i as int),
        decreases text@.len() - i,
    {
        i = i + 1;
    }
    i
}

/// Copies the word that begins at `from`; returns it and where it ends.
pub fn take_word(text: &Vec<char>, from: usize) -> (found: (Vec<char>, usize))
    requires
        from <= text@.len(),
    ensures
        found.1 == from + word_run(text@, from as int),
        found.1 <= text@.len(),
        found.0@ == word_at(text@, from as int),
{
    let mut word: Vec<char> = Vec::new();
    let mut i: usize = from;
    assert(text@.subrange(from as int, from as int) =~= Seq::<char>::empty());
    while i < text.len() && !is_blank_char(text[i])
        invariant
            from <= i <= text@.len(),
            word_run(text@, from as int) == (i - from) + word_run(text@, i as int),
            word@ == text@.subrange(from as int, i as int),
        decreases text@.len() - i,
    {
        assert(text@.subrange(from as int, i + 1) =~= word@.push(text@[i as int]));
        word.push(text[i]);
        i = i + 1;
    }
    (word, i)
}

/// Whether `word` stands in `s` at position `at`.
pub open spec fn stands_at(s: Seq<char>, word: Seq<char>, at: int) -> bool {
    &&& 0 <= at
    &&& at + word.len() <= s.len()
    &&& s.subrange(at, at + word.len()) == word
}

/// Whether `word` stands somewhere in `s`.
pub open spec fn occurs_in(s: Seq<char>, word: Seq<char>) -> bool {
    exists|at: int| stands_at(s, word, at)
}

/// Whether `word` stands in `text` at position `at`.
pub fn word_stands_at(text: &Vec<char>, word: &Vec<char>, at: usize) -> (yes: bool)
    requires
        at <= text@.len(),
    ensures
        yes == stands_at(text@, word@, at as int),
{
    if word.len() > text.len() - at {
        return false;
    }
    let mut i: usize = 0;
    while i < word.len()
        invariant
            i <= word@.len(),
            at + word@.len() <= text@.len(),
            text@.len() <= usize::MAX,
            forall|j: int| 0 <= j < i ==> text@[at + j] == word@[j],
        decreases word@.len() - i,
    {
        if text[at + i] != word[i] {
            assert(text@.subrange(at as int, at + word@.len())[i as int] != word@[i as int]);
            return false;
        }
        i = i + 1;
    }
    assert(text@.subrange(at as int, at + word@.len()) =~= word@);
    true
}

/// Whether `word` stands somewhere in `text`.
pub fn contains_word(text: &Vec<char>, word: &Vec<char>) -> (yes: bool)
    ensures
        yes == occurs_in(text@, word@),
{
    let n: usize = text.len();
    let mut at: usize = 0;
    while at < n
        invariant
            at <= n,
            n == text@.len(),
            forall|j: int| 0 <= j < at ==> !stands_at(text@, word@, j),
        decreases n - at,
    {
        if word_stands_at(text, word, at) {
            return true;
        }
        at = at + 1;
    }
    word_stands_at(text, word, n)
}

} // verus!
